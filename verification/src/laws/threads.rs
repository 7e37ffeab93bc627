//! Comment threads stay anchored where an operation leaves their text alone, and where it
//! rewrites all of it.

use vstd::prelude::*;

use crate::comments::{anchored, anchors, comment_id};
use crate::inline::{inherited_marks, inline_result, spliced};
use crate::json::Tree;
use crate::laws::locality::{
    is_local_edit, law_append_table_row_is_local, law_insert_blocks_is_local,
    law_nodes_outside_stay, law_set_is_found, leads_through, moved,
};
use crate::markdown::Dialect;
use crate::marks::{has_kind, marked, merged, shared_marks, visible};
use crate::node::{
    has_path, kids, kind, lemma_path_push, lemma_visited, marks, node_at, visited, visited_kids, with_kids,
};
use crate::operations::{
    is_doc, is_hit, lemma_kinds_differ, lemma_text_hits, operation_result, text_hits,
};
use crate::page_write::detaches;
use crate::spans::divided;
use crate::text::width;
use crate::types::EditOperation;

verus! {

/// Every node below a node is visited.
pub proof fn lemma_all_visited(t: Tree, path: Seq<nat>, rest: Seq<nat>)
    requires
        has_path(t, rest),
    ensures
        visited(t, path).contains((path + rest, node_at(t, rest))),
    decreases rest.len(),
{
    let n = kids(t).len();
    let below = visited_kids(t, path, n);
    if rest.len() == 0 {
        assert(path + rest =~= path);
        assert(visited(t, path)[below.len() as int] == (path, t));
    } else {
        let i = rest[0];
        let inner = visited(kids(t)[i as int], path.push(i));
        lemma_all_visited(kids(t)[i as int], path.push(i), rest.skip(1));
        assert(path.push(i) + rest.skip(1) =~= path + rest);
        let j = choose|j: int|
            0 <= j < inner.len() && inner[j] == (path + rest, node_at(t, rest));
        lemma_visited_below(t, path, n, i, j);
        let k = choose|k: int| 0 <= k < below.len() && below[k] == inner[j];
        assert(visited(t, path)[k] == inner[j]);
    }
}

/// What is visited below one child is visited below the first `n` children.
proof fn lemma_visited_below(t: Tree, path: Seq<nat>, n: nat, i: nat, j: int)
    requires
        i < n <= kids(t).len(),
        0 <= j < visited(kids(t)[i as int], path.push(i)).len(),
    ensures
        visited_kids(t, path, n).contains(visited(kids(t)[i as int], path.push(i))[j]),
    decreases n,
{
    let before = visited_kids(t, path, (n - 1) as nat);
    let all = visited_kids(t, path, n);
    let x = visited(kids(t)[i as int], path.push(i))[j];
    if i == n - 1 {
        assert(all[before.len() + j] == x);
    } else {
        lemma_visited_below(t, path, (n - 1) as nat, i, j);
        let k = choose|k: int| 0 <= k < before.len() && before[k] == x;
        assert(all[k] == x);
    }
}

/// A mark at `path` anchors the thread.
pub open spec fn anchored_at(t: Tree, path: Seq<nat>, id: Seq<char>) -> bool {
    has_path(t, path) && anchors(marks(node_at(t, path)), id)
}

/// A thread is anchored exactly where a mark on some node anchors it.
pub proof fn law_anchored_somewhere(t: Tree, id: Seq<char>)
    ensures
        anchored(t, id) <==> exists|path: Seq<nat>| #[trigger] anchored_at(t, path, id),
{
    let nodes = visited(t, Seq::empty());
    if anchored(t, id) {
        let i = choose|i: int| 0 <= i < nodes.len() && anchors(#[trigger] marks(nodes[i].1), id);
        lemma_visited(t, t, Seq::empty());
        assert(has_path(t, nodes[i].0));
        assert(anchored_at(t, nodes[i].0, id));
    }
    if exists|path: Seq<nat>| #[trigger] anchored_at(t, path, id) {
        let path = choose|path: Seq<nat>| #[trigger] anchored_at(t, path, id);
        lemma_all_visited(t, Seq::empty(), path);
        assert(Seq::<nat>::empty() + path =~= path);
        let i = choose|i: int| 0 <= i < nodes.len() && nodes[i] == (path, node_at(t, path));
        assert(anchors(marks(nodes[i].1), id));
    }
}

/// A thread that is anchored outside the edited range stays anchored.
pub proof fn law_threads_outside_stay(
    before: Tree,
    after: Tree,
    up: Seq<nat>,
    from: int,
    to: int,
    new: Seq<Tree>,
    path: Seq<nat>,
    id: Seq<char>,
)
    requires
        is_local_edit(before, after, up, from, to, new),
        anchored_at(before, path, id),
        !leads_through(path, up, from, to),
    ensures
        anchored(after, id),
{
    lemma_kinds_differ();
    law_nodes_outside_stay(before, after, up, from, to, new, path);
    let there = moved(path, up, from, to, new);
    assert(node_at(after, there).field("marks"@) == node_at(before, path).field("marks"@));
    assert(anchored_at(after, there, id));
    law_anchored_somewhere(after, id);
}

/// Inserting blocks or rows detaches no thread.
pub proof fn law_inserts_detach_nothing(d: Dialect, doc: Tree, operation: EditOperation)
    requires
        is_doc(doc),
        !(operation is ReplaceText),
        operation_result(d, doc, operation) is Ok,
    ensures
        !detaches(doc, operation_result(d, doc, operation)->Ok_0.0),
{
    let after = operation_result(d, doc, operation)->Ok_0.0;
    assert forall|id: Seq<char>| #[trigger] anchored(doc, id) implies anchored(after, id) by {
        law_anchored_somewhere(doc, id);
        let path = choose|path: Seq<nat>| #[trigger] anchored_at(doc, path, id);
        match operation {
            EditOperation::InsertBlocks { anchor, position, markdown } => {
                law_insert_blocks_is_local(d, doc, anchor, position, markdown);
                let i = crate::operations::block_hits(d, kids(doc), anchor@, kids(doc).len())[0];
                let at = if position == crate::types::InsertPosition::After {
                    i + 1
                } else {
                    i
                };
                let new = kids((d.parse)(markdown@));
                law_threads_outside_stay(doc, after, Seq::empty(), at, at, new, path, id);
            },
            EditOperation::AppendTableRow { anchor, row } => {
                law_append_table_row_is_local(d, doc, anchor, row);
                let hit = crate::operations::row_hits(d, doc, anchor@)[0];
                let at = hit.last() as int + 1;
                let new = crate::rows::built_rows(d, node_at(doc, hit), row@, true)->Ok_0;
                law_threads_outside_stay(doc, after, hit.drop_last(), at, at, new, path, id);
            },
            EditOperation::ReplaceText { find, replace } => {},
        }
    }
}

/// What passes a filter stays.
proof fn lemma_filter_keeps(s: Seq<Tree>, f: spec_fn(Tree) -> bool, x: Tree)
    requires
        s.contains(x),
        f(x),
    ensures
        s.filter(f).contains(x),
{
    let i = choose|i: int| 0 <= i < s.len() && s[i] == x;
    s.lemma_filter_contains(f, i);
}

/// New text in place of a match carries the marks that cover all of the match, but for those that
/// `find` spells out and those of a kind that the new text brings itself.
pub proof fn law_covering_marks_are_kept(
    d: Dialect,
    block: Tree,
    start: int,
    find: Seq<char>,
    replace: Seq<char>,
    mark: Tree,
    i: int,
)
    requires
        spliced(d, block, start, find, replace) is Ok,
        kind(block) != Some("codeBlock"@),
        ({
            let covered = divided(d, kids(block), start, start + width(find)).covered;
            let nodes = inline_result(d, replace)->Ok_0;
            &&& shared_marks(covered).contains(mark)
            &&& !visible(mark) || (d.inline)(covered) != find
            &&& 0 <= i < nodes.len()
            &&& kind(nodes[i]) == Some("text"@)
            &&& !has_kind(marks(nodes[i]), mark)
        }),
    ensures
        ({
            let parts = divided(d, kids(block), start, start + width(find));
            let old = inline_result(d, replace)->Ok_0[i];
            let all = kids(spliced(d, block, start, find, replace)->Ok_0);
            let new = all[parts.before.len() + i];
            &&& parts.before.len() + i < all.len()
            &&& marks(new).contains(mark)
            &&& forall|key: Seq<char>| key != "marks"@ ==> #[trigger] new.field(key) == old.field(key)
        }),
{
    let parts = divided(d, kids(block), start, start + width(find));
    let covered = parts.covered;
    let common = shared_marks(covered);
    let nodes = inline_result(d, replace)->Ok_0;
    let inherited = inherited_marks(d, covered, find)->Ok_0;
    if (d.inline)(covered) == find {
        lemma_filter_keeps(common, |m: Tree| !visible(m), mark);
    }
    assert(inherited.contains(mark));
    let own = marks(nodes[i]);
    let fresh = |m: Tree| !has_kind(own, m);
    lemma_filter_keeps(inherited, fresh, mark);
    let kept = inherited.filter(fresh);
    let k = choose|k: int| 0 <= k < kept.len() && kept[k] == mark;
    assert(merged(own, inherited)[own.len() + k] == mark);
    let made = nodes.map_values(|n: Tree| marked(n, inherited));
    let content = parts.before + made + parts.after;
    assert(kids(with_kids(block, content)) == content);
    assert(content[parts.before.len() + i] == marked(nodes[i], inherited));
}

/// A thread stays anchored when its text is rewritten: if its mark covers the whole match, and
/// the new Markdown gives at least one text node without a comment mark of its own.
pub proof fn law_rewritten_thread_stays(
    d: Dialect,
    doc: Tree,
    find: String,
    replace: String,
    mark: Tree,
    id: Seq<char>,
    i: int,
)
    requires
        is_doc(doc),
        operation_result(d, doc, EditOperation::ReplaceText { find, replace }) is Ok,
        comment_id(mark) == Some(id),
        ({
            let (path, at) = text_hits(d, doc, find@)[0];
            let block = node_at(doc, path);
            let covered = divided(d, kids(block), at->0, at->0 + width(find@)).covered;
            let nodes = inline_result(d, replace@)->Ok_0;
            &&& at is Some
            &&& kind(block) != Some("codeBlock"@)
            &&& shared_marks(covered).contains(mark)
            &&& 0 <= i < nodes.len()
            &&& kind(nodes[i]) == Some("text"@)
            &&& !has_kind(marks(nodes[i]), mark)
        }),
    ensures
        anchored(
            operation_result(d, doc, EditOperation::ReplaceText { find, replace })->Ok_0.0,
            id,
        ),
{
    let after = operation_result(d, doc, EditOperation::ReplaceText { find, replace })->Ok_0.0;
    let (path, at) = text_hits(d, doc, find@)[0];
    let start = at->0;
    let block = node_at(doc, path);
    let new = spliced(d, block, start, find@, replace@)->Ok_0;
    let parts = divided(d, kids(block), start, start + width(find@));
    lemma_comment_is_invisible(mark);
    law_covering_marks_are_kept(d, block, start, find@, replace@, mark, i);
    lemma_text_hits(d, doc, find@, visited(doc, Seq::empty()).len());
    assert(is_hit(d, doc, find@, text_hits(d, doc, find@)[0]));
    law_set_is_found(doc, path, new);
    let step = (parts.before.len() + i) as nat;
    lemma_path_push(after, path, step);
    let ms = marks(kids(new)[step as int]);
    let k = choose|k: int| 0 <= k < ms.len() && ms[k] == mark;
    assert(comment_id(ms[k]) == Some(id));
    assert(anchored_at(after, path.push(step), id));
    law_anchored_somewhere(after, id);
}

/// A comment does not show in Markdown.
proof fn lemma_comment_is_invisible(mark: Tree)
    requires
        comment_id(mark) is Some,
    ensures
        !visible(mark),
{
    reveal_strlit("comment");
    reveal_strlit("bold");
    reveal_strlit("italic");
    reveal_strlit("code");
    reveal_strlit("strike");
    reveal_strlit("link");
    assert("comment"@.len() == 7);
    assert("bold"@.len() == 4);
    assert("italic"@.len() == 6);
    assert("code"@.len() == 4);
    assert("strike"@.len() == 6);
    assert("link"@.len() == 4);
}

} // verus!
