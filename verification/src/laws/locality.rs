//! An operation changes one run of siblings. Every other node stays as it is.

use vstd::prelude::*;

use crate::json::Tree;
use crate::markdown::Dialect;
use crate::node::{has_path, kids, kind, marks, node_at, set_at, visited, with_kids};
use crate::operations::{
    block_hits, is_doc, is_hit, lemma_kinds_differ, lemma_parent, lemma_row_hits, lemma_text_hits,
    lemma_with_kids, operation_result, row_hits, text_hits,
};
use crate::rows::built_rows;
use crate::spans::{first_node, last_node, lemma_first_past, lemma_first_up_to, lemma_match_order};
use crate::text::{lemma_width_take, offsets, width};
use crate::types::{EditOperation, InsertPosition};

verus! {

/// Neither of two paths leads through the other.
pub open spec fn apart(p: Seq<nat>, q: Seq<nat>) -> bool {
    !p.is_prefix_of(q) && !q.is_prefix_of(p)
}

/// Two nodes agree on every field but their content.
pub open spec fn same_but_content(a: Tree, b: Tree) -> bool {
    forall|key: Seq<char>| key != "content"@ ==> #[trigger] a.field(key) == b.field(key)
}

/// A node with children is an object.
pub proof fn lemma_parent_takes_fields(t: Tree)
    requires
        kids(t).len() > 0,
    ensures
        t.takes_fields(),
{
}

/// A path in two parts leads on from where its first part leads.
pub proof fn lemma_path_add(t: Tree, p: Seq<nat>, q: Seq<nat>)
    ensures
        has_path(t, p + q) <==> has_path(t, p) && has_path(node_at(t, p), q),
        has_path(t, p + q) ==> node_at(t, p + q) == node_at(node_at(t, p), q),
    decreases p.len(),
{
    if p.len() == 0 {
        assert(p + q =~= q);
    } else {
        assert((p + q).skip(1) =~= p.skip(1) + q);
        assert((p + q)[0] == p[0]);
        if p[0] < kids(t).len() {
            lemma_path_add(kids(t)[p[0] as int], p.skip(1), q);
        }
    }
}

/// What is put at a path is found there.
pub proof fn law_set_is_found(t: Tree, p: Seq<nat>, new: Tree)
    requires
        has_path(t, p),
    ensures
        has_path(set_at(t, p, new), p),
        node_at(set_at(t, p, new), p) == new,
    decreases p.len(),
{
    if p.len() > 0 {
        let i = p[0] as int;
        lemma_parent_takes_fields(t);
        let inner = set_at(kids(t)[i], p.skip(1), new);
        lemma_with_kids(t, kids(t).update(i, inner));
        law_set_is_found(kids(t)[i], p.skip(1), new);
    }
}

/// A change at a path leaves the rest of the tree: a path that lies apart leads to the same node
/// as before.
pub proof fn law_set_leaves_the_rest(t: Tree, p: Seq<nat>, new: Tree, q: Seq<nat>)
    requires
        has_path(t, p),
        apart(p, q),
    ensures
        has_path(set_at(t, p, new), q) <==> has_path(t, q),
        has_path(t, q) ==> node_at(set_at(t, p, new), q) == node_at(t, q),
    decreases p.len(),
{
    if p.len() == 0 {
        assert(p.is_prefix_of(q));
    } else if q.len() == 0 {
        assert(q.is_prefix_of(p));
    } else {
        let i = p[0] as int;
        lemma_parent_takes_fields(t);
        let inner = set_at(kids(t)[i], p.skip(1), new);
        lemma_with_kids(t, kids(t).update(i, inner));
        if q[0] == p[0] {
            let (ps, qs) = (p.skip(1), q.skip(1));
            if ps.is_prefix_of(qs) {
                assert(p =~= q.take(p.len() as int)) by {
                    assert(qs.take(ps.len() as int) =~= ps);
                    assert forall|j: int| 0 <= j < p.len() implies p[j] == q[j] by {
                        if j > 0 {
                            assert(ps[j - 1] == qs[j - 1]);
                        }
                    }
                }
            }
            if qs.is_prefix_of(ps) {
                assert(q =~= p.take(q.len() as int)) by {
                    assert forall|j: int| 0 <= j < q.len() implies p[j] == q[j] by {
                        if j > 0 {
                            assert(ps[j - 1] == qs[j - 1]);
                        }
                    }
                }
            }
            law_set_leaves_the_rest(kids(t)[i], ps, new, qs);
        }
    }
}

/// A node above the changed one keeps its number of children and every field but its content.
pub proof fn law_set_keeps_the_nodes_above(t: Tree, p: Seq<nat>, new: Tree, q: Seq<nat>)
    requires
        has_path(t, p),
        q.is_prefix_of(p),
        q.len() < p.len(),
    ensures
        has_path(set_at(t, p, new), q),
        same_but_content(node_at(set_at(t, p, new), q), node_at(t, q)),
        marks(node_at(set_at(t, p, new), q)) == marks(node_at(t, q)),
        kids(node_at(set_at(t, p, new), q)).len() == kids(node_at(t, q)).len(),
    decreases p.len(),
{
    let i = p[0] as int;
    lemma_parent_takes_fields(t);
    let inner = set_at(kids(t)[i], p.skip(1), new);
    lemma_with_kids(t, kids(t).update(i, inner));
    if q.len() > 0 {
        assert(q[0] == p[0]);
        assert(q.skip(1).is_prefix_of(p.skip(1))) by {
            assert(q.skip(1) =~= p.skip(1).take(q.len() - 1));
        }
        law_set_keeps_the_nodes_above(kids(t)[i], p.skip(1), new, q.skip(1));
    }
}

/// The children of the node at `up` from number `from` up to number `to` have given way to `new`.
/// Nothing else has changed.
pub open spec fn is_local_edit(
    before: Tree,
    after: Tree,
    up: Seq<nat>,
    from: int,
    to: int,
    new: Seq<Tree>,
) -> bool {
    let parent = node_at(before, up);
    &&& has_path(before, up)
    &&& parent.takes_fields()
    &&& 0 <= from <= to <= kids(parent).len()
    &&& after == set_at(
        before,
        up,
        with_kids(parent, kids(parent).take(from) + new + kids(parent).skip(to)),
    )
}

/// A path leads through one of the children that gave way.
pub open spec fn leads_through(path: Seq<nat>, up: Seq<nat>, from: int, to: int) -> bool {
    up.is_prefix_of(path) && up.len() < path.len() && from <= path[up.len() as int] < to
}

/// The path after the edit of a node that had `path` before it.
pub open spec fn moved(
    path: Seq<nat>,
    up: Seq<nat>,
    from: int,
    to: int,
    new: Seq<Tree>,
) -> Seq<nat> {
    if up.is_prefix_of(path) && up.len() < path.len() && path[up.len() as int] >= to {
        path.update(up.len() as int, (path[up.len() as int] - (to - from) + new.len()) as nat)
    } else {
        path
    }
}

/// A node that does not lie in the edited range stays: it keeps every field but its content, and
/// its content too unless it holds the range. Nodes behind the range move along.
pub proof fn law_nodes_outside_stay(
    before: Tree,
    after: Tree,
    up: Seq<nat>,
    from: int,
    to: int,
    new: Seq<Tree>,
    path: Seq<nat>,
)
    requires
        is_local_edit(before, after, up, from, to, new),
        has_path(before, path),
        !leads_through(path, up, from, to),
    ensures
        has_path(after, moved(path, up, from, to, new)),
        same_but_content(node_at(after, moved(path, up, from, to, new)), node_at(before, path)),
        !path.is_prefix_of(up) ==> node_at(after, moved(path, up, from, to, new)) == node_at(
            before,
            path,
        ),
{
    let parent = node_at(before, up);
    let content = kids(parent).take(from) + new + kids(parent).skip(to);
    let edited = with_kids(parent, content);
    lemma_with_kids(parent, content);
    law_set_is_found(before, up, edited);
    if apart(up, path) {
        law_set_leaves_the_rest(before, up, edited, path);
    } else if path.is_prefix_of(up) {
        if path.len() < up.len() {
            law_set_keeps_the_nodes_above(before, up, edited, path);
        } else {
            assert(path =~= up);
        }
    } else {
        let n = up.len() as int;
        let i = path[n];
        let rest = path.skip(n + 1);
        let old = up.push(i) + rest;
        assert(path =~= old);
        lemma_path_add(before, up, seq![i] + rest);
        assert(path =~= up + (seq![i] + rest));
        let j: nat = if i >= to {
            (i - (to - from) + new.len()) as nat
        } else {
            i
        };
        assert(moved(path, up, from, to, new) =~= up + (seq![j] + rest));
        lemma_path_add(after, up, seq![j] + rest);
        assert((seq![i] + rest).skip(1) =~= rest);
        assert((seq![j] + rest).skip(1) =~= rest);
        assert((seq![i] + rest)[0] == i && (seq![j] + rest)[0] == j);
        assert(content[j as int] == kids(parent)[i as int]);
    }
}

/// The occurrences in the first `n` blocks are numbers of those blocks.
proof fn lemma_block_hits(d: Dialect, blocks: Seq<Tree>, anchor: Seq<char>, n: nat)
    ensures
        forall|j: int|
            0 <= j < block_hits(d, blocks, anchor, n).len() ==> 0 <= #[trigger] block_hits(
                d,
                blocks,
                anchor,
                n,
            )[j] < n && offsets(
                (d.blocks)(seq![blocks[block_hits(d, blocks, anchor, n)[j]]]),
                anchor,
            ).len() > 0,
    decreases n,
{
    if n > 0 {
        lemma_block_hits(d, blocks, anchor, (n - 1) as nat);
        let before = block_hits(d, blocks, anchor, (n - 1) as nat);
        let now = block_hits(d, blocks, anchor, n);
        assert forall|j: int| 0 <= j < now.len() implies 0 <= #[trigger] now[j] < n && offsets(
            (d.blocks)(seq![blocks[now[j]]]),
            anchor,
        ).len() > 0 by {
            if j < before.len() {
                assert(now[j] == before[j]);
            } else {
                assert(now[j] == n - 1);
            }
        }
    }
}

/// Each occurrence in a block counts.
proof fn lemma_block_count(d: Dialect, blocks: Seq<Tree>, anchor: Seq<char>, n: nat, i: int)
    requires
        0 <= i < n,
    ensures
        offsets((d.blocks)(seq![blocks[i]]), anchor).len() <= block_hits(
            d,
            blocks,
            anchor,
            n,
        ).len(),
    decreases n,
{
    if i < n - 1 {
        lemma_block_count(d, blocks, anchor, (n - 1) as nat, i);
    }
}

/// A text replacement changes one run of nodes: the ones in which the match lies, inside the
/// block that holds it, or the matching table row.
pub proof fn law_replace_text_is_local(d: Dialect, doc: Tree, find: String, replace: String)
    requires
        is_doc(doc),
        operation_result(d, doc, EditOperation::ReplaceText { find, replace }) is Ok,
    ensures
        ({
            let after = operation_result(
                d,
                doc,
                EditOperation::ReplaceText { find, replace },
            )->Ok_0.0;
            let (path, at) = text_hits(d, doc, find@)[0];
            &&& is_hit(d, doc, find@, (path, at))
            &&& at matches Some(start) ==> exists|new: Seq<Tree>| #[trigger]
                is_local_edit(
                    doc,
                    after,
                    path,
                    first_node(d, kids(node_at(doc, path)), start),
                    last_node(d, kids(node_at(doc, path)), start + width(find@)) + 1,
                    new,
                )
            &&& at is None ==> path.len() > 0 && exists|new: Seq<Tree>| #[trigger]
                is_local_edit(
                    doc,
                    after,
                    path.drop_last(),
                    path.last() as int,
                    path.last() as int + 1,
                    new,
                )
        }),
{
    lemma_kinds_differ();
    let after = operation_result(d, doc, EditOperation::ReplaceText { find, replace })->Ok_0.0;
    lemma_text_hits(d, doc, find@, visited(doc, Seq::empty()).len());
    let hits = text_hits(d, doc, find@);
    assert(is_hit(d, doc, find@, hits[0]));
    let path = hits[0].0;
    let block = node_at(doc, path);
    match hits[0].1 {
        Some(start) => {
            let end = start + width(find@);
            let nodes = kids(block);
            lemma_width_take(find@, 0, find@.len() as int);
            assert(find@.take(find@.len() as int) =~= find@);
            assert(find@.take(0) =~= Seq::<char>::empty());
            lemma_match_order(d, nodes, start, end);
            lemma_first_past(d, nodes, start, 0);
            lemma_first_up_to(d, nodes, end, 0);
            let parts = crate::spans::divided(d, nodes, start, end);
            let (first, last) = (first_node(d, nodes, start), last_node(d, nodes, end));
            let made = crate::inline::replacement(d, block, parts.covered, find@, replace@)->Ok_0;
            let lo = crate::spans::start_cut(d, nodes, start);
            let hi = crate::spans::end_cut(d, nodes, start, end);
            let new = crate::spans::part(nodes[first], 0, lo) + made + crate::spans::part(
                nodes[last],
                hi,
                crate::spans::length_of(nodes[last]),
            );
            assert(parts.before + made + parts.after =~= nodes.take(first) + new + nodes.skip(
                last + 1,
            ));
            assert(is_local_edit(doc, after, path, first, last + 1, new));
        },
        None => {
            assert(path.len() > 0);
            lemma_parent(doc, path);
            let rows = built_rows(d, block, replace@, false)->Ok_0;
            assert(is_local_edit(
                doc,
                after,
                path.drop_last(),
                path.last() as int,
                path.last() as int + 1,
                rows,
            ));
        },
    }
}

/// Inserted blocks land next to the top-level block that contains the anchor, and nothing goes.
pub proof fn law_insert_blocks_is_local(
    d: Dialect,
    doc: Tree,
    anchor: String,
    position: InsertPosition,
    markdown: String,
)
    requires
        is_doc(doc),
        operation_result(d, doc, EditOperation::InsertBlocks { anchor, position, markdown }) is Ok,
    ensures
        ({
            let after = operation_result(
                d,
                doc,
                EditOperation::InsertBlocks { anchor, position, markdown },
            )->Ok_0.0;
            let i = block_hits(d, kids(doc), anchor@, kids(doc).len())[0];
            let at = if position == InsertPosition::After {
                i + 1
            } else {
                i
            };
            &&& 0 <= i < kids(doc).len()
            &&& offsets((d.blocks)(seq![kids(doc)[i]]), anchor@).len() == 1
            &&& is_local_edit(doc, after, Seq::empty(), at, at, kids((d.parse)(markdown@)))
        }),
{
    let n = kids(doc).len();
    let hits = block_hits(d, kids(doc), anchor@, n);
    lemma_block_hits(d, kids(doc), anchor@, n);
    assert(0 <= hits[0] < n);
    lemma_block_count(d, kids(doc), anchor@, n, hits[0]);
}

/// Appended rows land after the table row that contains the anchor, and nothing goes.
pub proof fn law_append_table_row_is_local(d: Dialect, doc: Tree, anchor: String, row: String)
    requires
        is_doc(doc),
        operation_result(d, doc, EditOperation::AppendTableRow { anchor, row }) is Ok,
    ensures
        ({
            let after = operation_result(
                d,
                doc,
                EditOperation::AppendTableRow { anchor, row },
            )->Ok_0.0;
            let path = row_hits(d, doc, anchor@)[0];
            let at = path.last() as int + 1;
            &&& has_path(doc, path)
            &&& path.len() > 0
            &&& kind(node_at(doc, path)) == Some("tableRow"@)
            &&& is_local_edit(
                doc,
                after,
                path.drop_last(),
                at,
                at,
                built_rows(d, node_at(doc, path), row@, true)->Ok_0,
            )
        }),
{
    lemma_kinds_differ();
    let hits = row_hits(d, doc, anchor@);
    lemma_row_hits(d, doc, anchor@, visited(doc, Seq::empty()).len());
    assert(has_path(doc, hits[0]));
    lemma_parent(doc, hits[0]);
}

} // verus!
