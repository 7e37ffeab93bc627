//! Operations apply in order, each to exactly one match, and all of them or none.

use vstd::prelude::*;

use crate::comments::{anchored, comment_set};
use crate::edit::{
    edited, is_error, is_outcome, lemma_next_of, lemma_search_from, next_of, search_from, unchanged,
};
use crate::failure::{EditError, Failure};
use crate::json::Tree;
use crate::laws::locality::{
    is_local_edit, law_append_table_row_is_local, law_insert_blocks_is_local,
    law_replace_text_is_local,
};
use crate::laws::matches::{law_every_anchor_row_counts, law_one_match_is_unique};
use crate::markdown::Dialect;
use crate::node::{has_path, kids, node_at, set_at, with_kids};
use crate::operations::{
    block_hits, is_doc, is_hit, lemma_kinds_differ, lemma_with_kids, operation_result, row_hits,
    text_hits, Applied, Hit,
};
use crate::order::{lemma_ascending_unique, precedes};
use crate::rows::built_rows;
use crate::spacing::texts;
use crate::spans::{first_node, last_node};
use crate::text::width;
use crate::types::{changes, Change, EditOperation, EditOutcome, InsertPosition};

verus! {

/// The first operations do not depend on later ones.
proof fn lemma_later_operations(
    d: Dialect,
    doc: Tree,
    a: Seq<EditOperation>,
    b: Seq<EditOperation>,
    n: nat,
)
    requires
        n <= a.len(),
    ensures
        edited(d, doc, a + b, n) == edited(d, doc, a, n),
    decreases n,
{
    if n > 0 {
        lemma_later_operations(d, doc, a, b, (n - 1) as nat);
        assert((a + b)[n - 1] == a[n - 1]);
    }
}

/// Operations apply in order: those of a list come to the same as its first ones, and then the
/// rest on what they made. A failure among the rest keeps its place in the whole list.
pub proof fn law_operations_apply_in_order(
    d: Dialect,
    doc: Tree,
    a: Seq<EditOperation>,
    b: Seq<EditOperation>,
    n: nat,
)
    requires
        n <= b.len(),
    ensures
        edited(d, doc, a + b, a.len() + n) == match edited(d, doc, a, a.len()) {
            Ok((middle, done)) => match edited(d, middle, b, n) {
                Ok((after, more)) => Ok((after, done + more)),
                Err((number, f)) => Err((a.len() + number, f)),
            },
            Err(e) => Err(e),
        },
    decreases n,
{
    lemma_later_operations(d, doc, a, b, a.len());
    if n == 0 {
        if let Ok((middle, done)) = edited(d, doc, a, a.len()) {
            assert(done + Seq::<Change>::empty() =~= done);
        }
    } else {
        let m = (n - 1) as nat;
        law_operations_apply_in_order(d, doc, a, b, m);
        assert((a + b)[a.len() + n - 1] == b[n - 1]);
        if let Ok((middle, done)) = edited(d, doc, a, a.len()) {
            if let Ok((now, more)) = edited(d, middle, b, m) {
                if let Ok((after, change)) = operation_result(d, now, b[n - 1]) {
                    assert((done + more).push(change) =~= done + more.push(change));
                }
            }
        }
    }
}

/// A failure is that of the first operation that does not apply, and is named by its number.
pub proof fn law_the_first_failure_is_named(
    d: Dialect,
    doc: Tree,
    operations: Seq<EditOperation>,
    n: nat,
)
    requires
        edited(d, doc, operations, n) is Err,
    ensures
        ({
            let (number, f) = edited(d, doc, operations, n)->Err_0;
            &&& 1 <= number <= n
            &&& edited(d, doc, operations, (number - 1) as nat) matches Ok((now, _))
                && operation_result(d, now, operations[number - 1]) == Applied::Err(f)
        }),
    decreases n,
{
    if n > 0 && edited(d, doc, operations, (n - 1) as nat) is Err {
        law_the_first_failure_is_named(d, doc, operations, (n - 1) as nat);
    }
}

/// Edits that all apply make one change for each operation.
pub proof fn law_one_change_each(
    d: Dialect,
    doc: Tree,
    operations: Seq<EditOperation>,
    n: nat,
)
    requires
        edited(d, doc, operations, n) is Ok,
    ensures
        edited(d, doc, operations, n)->Ok_0.1.len() == n,
    decreases n,
{
    if n > 0 {
        law_one_change_each(d, doc, operations, (n - 1) as nat);
    }
}

/// How many matches an operation has in a document.
pub open spec fn match_count(d: Dialect, doc: Tree, operation: EditOperation) -> nat {
    match operation {
        EditOperation::ReplaceText { find, replace } => text_hits(d, doc, find@).len(),
        EditOperation::InsertBlocks { anchor, position, markdown } => block_hits(
            d,
            kids(doc),
            anchor@,
            kids(doc).len(),
        ).len(),
        EditOperation::AppendTableRow { anchor, row } => row_hits(d, doc, anchor@).len(),
    }
}

/// The text that an operation looks for.
pub open spec fn sought(operation: EditOperation) -> Seq<char> {
    match operation {
        EditOperation::ReplaceText { find, replace } => find@,
        EditOperation::InsertBlocks { anchor, position, markdown } => anchor@,
        EditOperation::AppendTableRow { anchor, row } => anchor@,
    }
}

/// An operation applies only where what it looks for is not empty and has exactly one match.
/// Otherwise it fails with the number of matches.
pub proof fn law_matches_are_unique(d: Dialect, doc: Tree, operation: EditOperation)
    ensures
        operation_result(d, doc, operation) is Ok ==> sought(operation).len() > 0 && match_count(
            d,
            doc,
            operation,
        ) == 1,
        sought(operation).len() > 0 && match_count(d, doc, operation) != 1 ==> {
            let (count, text) = (match_count(d, doc, operation), sought(operation));
            operation_result(d, doc, operation) == Applied::Err(
                match operation {
                    EditOperation::ReplaceText { .. } => Failure::FindMatches { count, find: text },
                    EditOperation::InsertBlocks { .. } => Failure::AnchorInBlocks {
                        count,
                        anchor: text,
                    },
                    EditOperation::AppendTableRow { .. } => Failure::AnchorInRows {
                        count,
                        anchor: text,
                    },
                },
            )
        },
{
}

/// The items of `before` stand in `after` at the places `at`, in order.
pub open spec fn stands_at(before: Seq<Tree>, after: Seq<Tree>, at: spec_fn(int) -> int) -> bool {
    &&& forall|j: int|
        0 <= j < before.len() ==> 0 <= #[trigger] at(j) < after.len() && after[at(j)] == before[j]
    &&& forall|i: int, j: int| 0 <= i < j < before.len() ==> #[trigger] at(i) < #[trigger] at(j)
}

/// Items that all stand in the other list in order are all found.
pub proof fn law_kept_items_are_counted(
    before: Seq<Tree>,
    after: Seq<Tree>,
    at: spec_fn(int) -> int,
)
    requires
        stands_at(before, after, at),
    ensures
        unchanged(before, after, before.len()) == before.len(),
{
    lemma_kept_items(before, after, at, before.len());
}

proof fn lemma_kept_items(
    before: Seq<Tree>,
    after: Seq<Tree>,
    at: spec_fn(int) -> int,
    n: nat,
)
    requires
        stands_at(before, after, at),
        n <= before.len(),
    ensures
        unchanged(before, after, n) == n,
        n > 0 ==> 0 <= search_from(before, after, n) <= at(n - 1) + 1,
    decreases n,
{
    if n > 0 {
        let m = (n - 1) as nat;
        lemma_kept_items(before, after, at, m);
        let from = search_from(before, after, m);
        let here = at(n - 1);
        if m > 0 {
            assert(at(m - 1) < here);
        }
        lemma_next_of(after, before[n - 1], from);
        if next_of(after, before[n - 1], from) > here {
            assert(after[here] != before[n - 1]);
        }
    }
}

/// Where an item is found, if all are.
spec fn found_at(before: Seq<Tree>, after: Seq<Tree>) -> spec_fn(int) -> int {
    |j: int| next_of(after, before[j], search_from(before, after, j as nat))
}

proof fn lemma_found_at(before: Seq<Tree>, after: Seq<Tree>, n: nat)
    requires
        n <= before.len(),
        unchanged(before, after, n) == n,
    ensures
        forall|j: int|
            0 <= j < n ==> 0 <= #[trigger] found_at(before, after)(j) < search_from(
                before,
                after,
                n,
            ) && after[found_at(before, after)(j)] == before[j],
        forall|i: int, j: int|
            0 <= i < j < n ==> #[trigger] found_at(before, after)(i) < #[trigger] found_at(
                before,
                after,
            )(j),
    decreases n,
{
    if n > 0 {
        let m = (n - 1) as nat;
        lemma_search_from(before, after, m);
        lemma_search_from(before, after, n);
        lemma_found_at(before, after, m);
        lemma_next_of(after, before[m as int], search_from(before, after, m));
    }
}

/// Items that are all counted all stand in the other list in order.
pub proof fn law_counted_items_are_kept(before: Seq<Tree>, after: Seq<Tree>)
    requires
        unchanged(before, after, before.len()) == before.len(),
    ensures
        exists|at: spec_fn(int) -> int| stands_at(before, after, at),
{
    let at = found_at(before, after);
    lemma_found_at(before, after, before.len());
    lemma_search_from(before, after, before.len());
    assert(stands_at(before, after, at));
}

/// Inserting blocks leaves every top-level block unchanged, and the count says so.
pub proof fn law_inserts_leave_every_block(
    d: Dialect,
    doc: Tree,
    anchor: String,
    position: InsertPosition,
    markdown: String,
)
    requires
        is_doc(doc),
        operation_result(d, doc, EditOperation::InsertBlocks { anchor, position, markdown }) is Ok,
    ensures
        unchanged(
            kids(doc),
            kids(
                operation_result(
                    d,
                    doc,
                    EditOperation::InsertBlocks { anchor, position, markdown },
                )->Ok_0.0,
            ),
            kids(doc).len(),
        ) == kids(doc).len(),
{
    law_insert_blocks_is_local(d, doc, anchor, position, markdown);
    let operation = EditOperation::InsertBlocks { anchor, position, markdown };
    let after = operation_result(d, doc, operation)->Ok_0.0;
    let hit = block_hits(d, kids(doc), anchor@, kids(doc).len())[0];
    let index = if position == InsertPosition::After {
        hit + 1
    } else {
        hit
    };
    let new = kids((d.parse)(markdown@));
    let content = kids(doc).take(index) + new + kids(doc).skip(index);
    lemma_with_kids(doc, content);
    let at = |j: int|
        if j < index {
            j
        } else {
            j + new.len()
        };
    assert(stands_at(kids(doc), content, at));
    law_kept_items_are_counted(kids(doc), content, at);
}

/// The items of `before`, but for number `i`, stand in `after` at the places `at`, in order, and
/// number `i` does not stand at the place of the next one or later.
spec fn all_but_one(before: Seq<Tree>, after: Seq<Tree>, at: spec_fn(int) -> int, i: int) -> bool {
    &&& forall|j: int|
        0 <= j < before.len() && j != i ==> 0 <= #[trigger] at(j) < after.len() && after[at(j)]
            == before[j]
    &&& forall|j: int, k: int|
        0 <= j < k < before.len() && j != i && k != i ==> #[trigger] at(j) < #[trigger] at(k)
    &&& forall|k: int|
        i + 1 < before.len() && at(i + 1) <= k < after.len() ==> #[trigger] after[k] != before[i]
}

/// Where all items but one stand in the other list in order, all but one are found.
proof fn lemma_all_but_one(
    before: Seq<Tree>,
    after: Seq<Tree>,
    at: spec_fn(int) -> int,
    i: int,
    n: nat,
)
    requires
        0 <= i < before.len(),
        all_but_one(before, after, at, i),
        n <= before.len(),
    ensures
        unchanged(before, after, n) >= if n <= i {
            n as int
        } else {
            n - 1
        },
        n < before.len() && n != i ==> search_from(before, after, n) <= at(n as int),
        n == i && i + 1 < before.len() ==> search_from(before, after, n) <= at(i + 1),
    decreases n,
{
    lemma_search_from(before, after, n);
    if n > 0 {
        let m = n - 1;
        lemma_all_but_one(before, after, at, i, m as nat);
        lemma_search_from(before, after, m as nat);
        let from = search_from(before, after, m as nat);
        let next = next_of(after, before[m], from);
        lemma_next_of(after, before[m], from);
        if m == i {
            if i + 1 < before.len() && next < after.len() && next >= at(i + 1) {
                assert(after[next] != before[i]);
            }
        } else {
            if next > at(m) {
                assert(after[at(m)] != before[m]);
            }
            assert(next <= at(m));
            if n < before.len() && n != i {
                assert(at(m) < at(n as int));
            }
            if n == i && i + 1 < before.len() {
                assert(at(m) < at(i + 1));
            }
        }
    }
}

/// The path with another first step.
proof fn lemma_copied_block(doc: Tree, path: Seq<nat>, j: nat)
    requires
        has_path(doc, path),
        path.len() > 0,
        j < kids(doc).len(),
        kids(doc)[j as int] == kids(doc)[path[0] as int],
    ensures
        has_path(doc, path.update(0, j)),
        node_at(doc, path.update(0, j)) == node_at(doc, path),
{
    assert(path.update(0, j).skip(1) =~= path.skip(1));
}

/// The block that holds the match of an operation has no copy: the copy would hold a match too.
proof fn lemma_no_copy(d: Dialect, doc: Tree, operation: EditOperation, path: Seq<nat>, j: nat)
    requires
        operation_result(d, doc, operation) is Ok,
        match operation {
            EditOperation::ReplaceText { find, replace } => text_hits(d, doc, find@)[0].0 == path,
            EditOperation::InsertBlocks { .. } => false,
            EditOperation::AppendTableRow { anchor, row } => row_hits(d, doc, anchor@)[0] == path,
        },
        path.len() > 0,
        j < kids(doc).len(),
        j != path[0],
    ensures
        kids(doc)[j as int] != kids(doc)[path[0] as int],
{
    let other = path.update(0, j);
    assert(other[0] != path[0]);
    match operation {
        EditOperation::ReplaceText { find, replace } => {
            law_one_match_is_unique(d, doc, find@);
            let hit = text_hits(d, doc, find@)[0];
            assert(is_hit(d, doc, find@, hit));
            if kids(doc)[j as int] == kids(doc)[path[0] as int] {
                lemma_copied_block(doc, path, j);
                assert(is_hit(d, doc, find@, (other, hit.1)));
            }
        },
        EditOperation::AppendTableRow { anchor, row } => {
            let hits = row_hits(d, doc, anchor@);
            law_every_anchor_row_counts(d, doc, anchor@, path);
            law_every_anchor_row_counts(d, doc, anchor@, other);
            assert(hits.contains(hits[0]));
            if kids(doc)[j as int] == kids(doc)[path[0] as int] {
                lemma_copied_block(doc, path, j);
                assert(hits.contains(other));
            }
        },
        _ => {},
    }
}

/// A local edit next to or below one top-level block leaves all others, if the block has no copy.
proof fn lemma_one_block(
    before: Tree,
    after: Tree,
    up: Seq<nat>,
    from: int,
    to: int,
    new: Seq<Tree>,
    i: int,
)
    requires
        is_local_edit(before, after, up, from, to, new),
        0 <= i < kids(before).len(),
        up.len() > 0 ==> i == up[0],
        up.len() == 0 ==> to == from || (to == from + 1 && i == from),
        forall|j: int|
            0 <= j < kids(before).len() && j != i ==> #[trigger] kids(before)[j] != kids(before)[i],
    ensures
        unchanged(kids(before), kids(after), kids(before).len()) >= kids(before).len() - 1,
{
    let old = kids(before);
    let parent = node_at(before, up);
    let content = kids(parent).take(from) + new + kids(parent).skip(to);
    if up.len() > 0 {
        let block = set_at(old[i], up.skip(1), with_kids(parent, content));
        lemma_with_kids(before, old.update(i, block));
        let at = |j: int| j;
        assert(all_but_one(old, kids(after), at, i));
        lemma_all_but_one(old, kids(after), at, i, old.len());
    } else {
        lemma_with_kids(before, content);
        assert(kids(after) == content);
        let at = |j: int|
            if j < from {
                j
            } else {
                j - (to - from) + new.len()
            };
        if to == from {
            assert(stands_at(old, content, at));
            law_kept_items_are_counted(old, content, at);
        } else {
            assert forall|k: int|
                i + 1 < old.len() && at(i + 1) <= k < content.len() implies #[trigger] content[k]
                != old[i] by {
                assert(content[k] == old[k + 1 - new.len()]);
            }
            assert(all_but_one(old, content, at, i));
            lemma_all_but_one(old, content, at, i, old.len());
        }
    }
}

/// An operation leaves every top-level block but one, and the count says so.
pub proof fn law_at_most_one_block_changes(d: Dialect, doc: Tree, operation: EditOperation)
    requires
        is_doc(doc),
        operation_result(d, doc, operation) is Ok,
    ensures
        unchanged(
            kids(doc),
            kids(operation_result(d, doc, operation)->Ok_0.0),
            kids(doc).len(),
        ) >= kids(doc).len() - 1,
{
    let after = operation_result(d, doc, operation)->Ok_0.0;
    let old = kids(doc);
    match operation {
        EditOperation::InsertBlocks { anchor, position, markdown } => {
            law_inserts_leave_every_block(d, doc, anchor, position, markdown);
        },
        EditOperation::ReplaceText { find, replace } => {
            law_replace_text_is_local(d, doc, find, replace);
            let (path, at) = text_hits(d, doc, find@)[0];
            lemma_hit_below(d, doc, find@, (path, at));
            let i = path[0] as int;
            assert forall|j: int| 0 <= j < old.len() && j != i implies #[trigger] old[j]
                != old[i] by {
                lemma_no_copy(d, doc, operation, path, j as nat);
            }
            match at {
                Some(start) => {
                    let nodes = kids(node_at(doc, path));
                    let from = first_node(d, nodes, start);
                    let to = last_node(d, nodes, start + width(find@)) + 1;
                    let new = choose|new: Seq<Tree>| #[trigger]
                        is_local_edit(doc, after, path, from, to, new);
                    lemma_one_block(doc, after, path, from, to, new, i);
                },
                None => {
                    let (up, k) = (path.drop_last(), path.last() as int);
                    let new = choose|new: Seq<Tree>| #[trigger]
                        is_local_edit(doc, after, up, k, k + 1, new);
                    lemma_one_block(doc, after, up, k, k + 1, new, i);
                },
            }
        },
        EditOperation::AppendTableRow { anchor, row } => {
            law_append_table_row_is_local(d, doc, anchor, row);
            let path = row_hits(d, doc, anchor@)[0];
            let i = path[0] as int;
            assert forall|j: int| 0 <= j < old.len() && j != i implies #[trigger] old[j]
                != old[i] by {
                lemma_no_copy(d, doc, operation, path, j as nat);
            }
            let k = path.last() as int + 1;
            let new = built_rows(d, node_at(doc, path), row@, true)->Ok_0;
            lemma_one_block(doc, after, path.drop_last(), k, k, new, i);
        },
    }
}

/// A match lies below the document.
proof fn lemma_hit_below(d: Dialect, doc: Tree, find: Seq<char>, hit: Hit)
    requires
        is_doc(doc),
        is_hit(d, doc, find, hit),
    ensures
        hit.0.len() > 0,
{
    lemma_kinds_differ();
}

/// Without operations the document stays as it is, with every block unchanged and no thread
/// detached.
pub proof fn law_no_operations_change_nothing(d: Dialect, doc: Tree, outcome: EditOutcome)
    requires
        is_outcome(d, doc, Seq::empty(), outcome),
    ensures
        outcome.doc@ == doc,
        outcome.changes@.len() == 0,
        outcome.detached_comments@.len() == 0,
        outcome.unchanged_blocks.0 == kids(doc).len(),
        outcome.unchanged_blocks.1 == kids(doc).len(),
{
    assert(changes(outcome.changes@).len() == outcome.changes@.len());
    let ids = texts(outcome.detached_comments@);
    if ids.len() > 0 {
        assert(ids.to_set().contains(ids[0]));
        assert(comment_set(doc).difference(comment_set(doc)).contains(ids[0]));
    }
    let same = |j: int| j;
    assert(stands_at(kids(doc), kids(doc), same));
    law_kept_items_are_counted(kids(doc), kids(doc), same);
}

/// One operation gives what it gives alone. No operation gives the document as it is.
pub proof fn law_one_operation_is_applied_once(
    d: Dialect,
    doc: Tree,
    operation: EditOperation,
)
    ensures
        edited(d, doc, Seq::empty(), 0) == Ok::<
            (Tree, Seq<Change>),
            (nat, Failure<Seq<char>, nat>),
        >((doc, Seq::empty())),
        edited(d, doc, seq![operation], 1) == match operation_result(d, doc, operation) {
            Ok((after, change)) => Ok::<(Tree, Seq<Change>), (nat, Failure<Seq<char>, nat>)>(
                (after, seq![change]),
            ),
            Err(f) => Err((1nat, f)),
        },
{
    reveal_with_fuel(edited, 2);
    if let Ok((after, change)) = operation_result(d, doc, operation) {
        assert(Seq::<Change>::empty().push(change) =~= seq![change]);
    }
}

/// The outcome of edits: the document and the changes that the operations give, exactly the
/// threads that are anchored before and not after, and the count of the blocks.
pub proof fn law_the_outcome_says_what_happened(
    d: Dialect,
    doc: Tree,
    operations: Seq<EditOperation>,
    outcome: EditOutcome,
    id: Seq<char>,
)
    requires
        is_outcome(d, doc, operations, outcome),
    ensures
        doc.text_field("type"@) == Some("doc"@),
        edited(d, doc, operations, operations.len()) == Ok::<
            (Tree, Seq<Change>),
            (nat, Failure<Seq<char>, nat>),
        >((outcome.doc@, changes(outcome.changes@))),
        texts(outcome.detached_comments@).contains(id) <==> anchored(doc, id) && !anchored(
            outcome.doc@,
            id,
        ),
        forall|i: int, j: int|
            0 <= i < j < outcome.detached_comments@.len() ==> precedes(
                #[trigger] texts(outcome.detached_comments@)[i],
                #[trigger] texts(outcome.detached_comments@)[j],
            ),
        outcome.unchanged_blocks.0 == unchanged(kids(doc), kids(outcome.doc@), kids(doc).len()),
        outcome.unchanged_blocks.1 == kids(doc).len(),
{
    let ids = texts(outcome.detached_comments@);
    assert(ids.to_set().contains(id) <==> ids.contains(id));
    assert(comment_set(doc).difference(comment_set(outcome.doc@)).contains(id) <==> anchored(
        doc,
        id,
    ) && !anchored(outcome.doc@, id));
}

/// An error of edits: the value is no document, or the operation that is named failed that way.
pub proof fn law_an_error_says_what_failed(
    d: Dialect,
    doc: Tree,
    operations: Seq<EditOperation>,
    error: EditError,
)
    requires
        is_error(d, doc, operations, error),
    ensures
        error is NotADocument <==> doc.text_field("type"@) != Some("doc"@),
        error matches EditError::Operation { number, cause } ==> edited(
            d,
            doc,
            operations,
            operations.len(),
        ) == Err::<(Tree, Seq<Change>), (nat, Failure<Seq<char>, nat>)>((number as nat, cause@)),
{
}

/// The first item of a list is looked for in the other list. If it is there, it counts, and the
/// rest is looked for behind where it first stands. If it is not, the rest is looked for in all
/// of the other list.
pub proof fn law_blocks_are_counted_from_the_front(x: Tree, rest: Seq<Tree>, after: Seq<Tree>, i: int)
    ensures
        !after.contains(x) ==> unchanged(seq![x] + rest, after, rest.len() + 1) == unchanged(
            rest,
            after,
            rest.len(),
        ),
        0 <= i < after.len() && after[i] == x && !after.take(i).contains(x) ==> unchanged(
            seq![x] + rest,
            after,
            rest.len() + 1,
        ) == 1 + unchanged(rest, after.skip(i + 1), rest.len()),
        unchanged(Seq::empty(), after, 0) == 0,
{
    let before = seq![x] + rest;
    lemma_next_of(after, x, 0);
    let at = next_of(after, x, 0);
    reveal_with_fuel(search_from, 2);
    reveal_with_fuel(unchanged, 2);
    assert(before[0] == x);
    if !after.contains(x) {
        if at < after.len() {
            assert(after[at] == x);
        }
        lemma_count_shift(x, rest, after, 0, rest.len());
        assert(after.skip(0) =~= after);
    } else if 0 <= i < after.len() && after[i] == x && !after.take(i).contains(x) {
        if at < i {
            assert(after.take(i)[at] == x);
        }
        if i < at {
            assert(after[i] != x);
        }
        lemma_count_shift(x, rest, after, i + 1, rest.len());
    }
}

/// A search in a part of a list finds what a search from there on finds.
proof fn lemma_next_shift(s: Seq<Tree>, x: Tree, k: int, from: int)
    requires
        0 <= k <= s.len(),
        0 <= from <= s.len() - k,
    ensures
        next_of(s, x, k + from) == k + next_of(s.skip(k), x, from),
    decreases s.len() - k - from,
{
    if k + from < s.len() {
        assert(s.skip(k)[from] == s[k + from]);
        if s[k + from] != x {
            lemma_next_shift(s, x, k, from + 1);
        }
    }
}

proof fn lemma_count_shift(x: Tree, rest: Seq<Tree>, after: Seq<Tree>, k: int, n: nat)
    requires
        0 <= k <= after.len(),
        search_from(seq![x] + rest, after, 1) == k,
        n <= rest.len(),
    ensures
        search_from(seq![x] + rest, after, n + 1) == k + search_from(rest, after.skip(k), n),
        unchanged(seq![x] + rest, after, n + 1) == unchanged(seq![x] + rest, after, 1) + unchanged(
            rest,
            after.skip(k),
            n,
        ),
    decreases n,
{
    if n > 0 {
        let m = (n - 1) as nat;
        lemma_count_shift(x, rest, after, k, m);
        assert((seq![x] + rest)[n as int] == rest[m as int]);
        lemma_search_from(rest, after.skip(k), m);
        lemma_next_shift(after, rest[m as int], k, search_from(rest, after.skip(k), m));
    }
}

/// The outcome of edits is determined by the document and the operations: the order of the lost
/// threads too.
pub proof fn law_the_outcome_is_determined(
    d: Dialect,
    doc: Tree,
    operations: Seq<EditOperation>,
    a: EditOutcome,
    b: EditOutcome,
)
    requires
        is_outcome(d, doc, operations, a),
        is_outcome(d, doc, operations, b),
    ensures
        a.doc@ == b.doc@,
        changes(a.changes@) == changes(b.changes@),
        texts(a.detached_comments@) == texts(b.detached_comments@),
        a.unchanged_blocks == b.unchanged_blocks,
{
    lemma_ascending_unique(texts(a.detached_comments@), texts(b.detached_comments@));
}

} // verus!
