//! New table rows keep the shape of the row they are made from, and never its comments.

use vstd::prelude::*;

use crate::comments::{anchored, anchors, comment_id};
use crate::failure::Failure;
use crate::json::Tree;
use crate::laws::locality::{law_set_is_found, lemma_path_add, same_but_content};
use crate::laws::threads::{anchored_at, law_anchored_somewhere};
use crate::markdown::Dialect;
use crate::marks::{is_comment, uncommented};
use crate::node::{has_path, kids, kind, lemma_path_push, marks, node_at, visited, with_kids};
use crate::operations::{
    is_doc, is_hit, lemma_kinds_differ, lemma_parent, lemma_text_hits, lemma_with_kids,
    operation_result, text_hits,
};
use crate::rows::{
    built_cell, built_cells, built_row, built_rows, built_rows_of, cell_shown, empty_paragraph, filled, is_header_row, lemma_filled_cells, mould, one_row_table, parsed_row,
    row_lines, table_rows,
};
use crate::types::EditOperation;

verus! {

/// There is one row for each line that is not blank. Without `fresh`, the first one takes the
/// place of the template.
pub proof fn law_one_row_per_line(d: Dialect, template: Tree, markdown: Seq<char>, fresh: bool)
    requires
        built_rows(d, template, markdown, fresh) is Ok,
    ensures
        ({
            let rows = built_rows(d, template, markdown, fresh)->Ok_0;
            let given = row_lines(markdown);
            &&& rows.len() == given.len() > 0
            &&& forall|j: int|
                0 <= j < rows.len() ==> built_row(d, template, given[j], !fresh && j == 0) == Ok::<
                    Tree,
                    Failure<Seq<char>, nat>,
                >(#[trigger] rows[j])
        }),
{
    let given = row_lines(markdown);
    lemma_rows_of(d, template, given, fresh, given.len());
}

/// A line that is not one table row with as many cells as the template fails all lines.
pub proof fn law_a_line_of_another_shape_fails(
    d: Dialect,
    template: Tree,
    markdown: Seq<char>,
    fresh: bool,
    j: int,
)
    requires
        0 <= j < row_lines(markdown).len(),
        ({
            let n = kids(template).len();
            let rows = table_rows((d.parse)(one_row_table(row_lines(markdown)[j], n)));
            rows.len() != 1 || kids(rows[0]).len() != n
        }),
    ensures
        built_rows(d, template, markdown, fresh) is Err,
{
    if built_rows(d, template, markdown, fresh) is Ok {
        law_one_row_per_line(d, template, markdown, fresh);
        let row = built_rows(d, template, markdown, fresh)->Ok_0[j];
        assert(built_row(d, template, row_lines(markdown)[j], !fresh && j == 0) == Ok::<
            Tree,
            Failure<Seq<char>, nat>,
        >(row));
    }
}

proof fn lemma_rows_of(
    d: Dialect,
    template: Tree,
    given: Seq<Seq<char>>,
    fresh: bool,
    n: nat,
)
    requires
        built_rows_of(d, template, given, fresh, n) is Ok,
    ensures
        ({
            let rows = built_rows_of(d, template, given, fresh, n)->Ok_0;
            &&& rows.len() == n
            &&& forall|j: int|
                0 <= j < n ==> built_row(d, template, given[j], !fresh && j == 0) == Ok::<
                    Tree,
                    Failure<Seq<char>, nat>,
                >(#[trigger] rows[j])
        }),
    decreases n,
{
    if n > 0 {
        lemma_rows_of(d, template, given, fresh, (n - 1) as nat);
    }
}

proof fn lemma_cells_of(
    d: Dialect,
    parsed: Seq<Tree>,
    template: Tree,
    keeps_old: bool,
    n: nat,
)
    requires
        built_cells(d, parsed, template, keeps_old, n) is Ok,
    ensures
        ({
            let cells = built_cells(d, parsed, template, keeps_old, n)->Ok_0;
            &&& cells.len() == n
            &&& forall|i: int|
                0 <= i < n ==> built_cell(
                    d,
                    parsed[i],
                    kids(template)[i],
                    keeps_old,
                    is_header_row(template),
                ) == Ok::<Tree, Failure<Seq<char>, nat>>(#[trigger] cells[i])
        }),
    decreases n,
{
    if n > 0 {
        lemma_cells_of(d, parsed, template, keeps_old, (n - 1) as nat);
    }
}

/// The cells of a row, one by one.
pub proof fn lemma_row_cells(d: Dialect, template: Tree, line: Seq<char>, keeps_old: bool)
    requires
        built_row(d, template, line, keeps_old) is Ok,
        template.takes_fields(),
    ensures
        ({
            let row = built_row(d, template, line, keeps_old)->Ok_0;
            let parsed = parsed_row(d, line, kids(template).len())->Ok_0;
            &&& parsed_row(d, line, kids(template).len()) is Ok
            &&& parsed.len() == kids(template).len()
            &&& same_but_content(row, mould(template, keeps_old))
            &&& marks(row) == marks(mould(template, keeps_old))
            &&& kids(row).len() == kids(template).len()
            &&& forall|i: int|
                0 <= i < kids(row).len() ==> built_cell(
                    d,
                    parsed[i],
                    kids(template)[i],
                    keeps_old,
                    is_header_row(template),
                ) == Ok::<Tree, Failure<Seq<char>, nat>>(#[trigger] kids(row)[i])
        }),
{
    let n = kids(template).len();
    let parsed = parsed_row(d, line, n)->Ok_0;
    lemma_filled_cells(kids(table_rows((d.parse)(one_row_table(line, n)))[0]), n);
    lemma_cells_of(d, parsed, template, keeps_old, n);
    lemma_with_kids(
        mould(template, keeps_old),
        built_cells(d, parsed, template, keeps_old, n)->Ok_0,
    );
}

/// Without its comment marks a node keeps its other marks and every other field. A node that has
/// no comment mark stays as it is.
pub proof fn law_only_comment_marks_go(t: Tree)
    ensures
        forall|key: Seq<char>| key != "marks"@ ==> #[trigger] uncommented(t).field(key) == t.field(
            key,
        ),
        marks(uncommented(t)) == marks(t).filter(|m: Tree| !is_comment(m)),
        forall|m: Tree| #[trigger] marks(uncommented(t)).contains(m) ==> !is_comment(m),
        (forall|m: Tree| #[trigger] marks(t).contains(m) ==> !is_comment(m)) ==> uncommented(t)
            == t,
{
    let own = marks(t);
    let keep = |m: Tree| !is_comment(m);
    let kept = own.filter(keep);
    if !(t.field("marks"@) matches Some(v) && v is Array) {
        assert(own =~= Seq::<Tree>::empty());
        own.lemma_filter_len(keep);
        assert(kept =~= own);
    }
    assert forall|m: Tree| #[trigger] kept.contains(m) implies !is_comment(m) by {
        let i = choose|i: int| 0 <= i < kept.len() && kept[i] == m;
        own.lemma_filter_pred(keep, i);
    }
    if forall|m: Tree| #[trigger] own.contains(m) ==> !is_comment(m) {
        assert forall|i: int| 0 <= i < own.len() implies keep(#[trigger] own[i]) by {
            assert(own.contains(own[i]));
        }
        lemma_filter_all(own, keep);
        assert(uncommented(t) =~= t) by {
            if let Tree::Object(m) = t {
                if m.contains_key("marks"@) && m["marks"@] is Array {
                    assert(m["marks"@] == Tree::Array(own));
                    assert(m.insert("marks"@, Tree::Array(own)) =~= m);
                }
            }
        }
    }
}

/// A filter that everything passes keeps everything.
pub proof fn lemma_filter_all<A>(s: Seq<A>, f: spec_fn(A) -> bool)
    requires
        forall|i: int| 0 <= i < s.len() ==> f(#[trigger] s[i]),
    ensures
        s.filter(f) == s,
    decreases s.len(),
{
    reveal(Seq::filter);
    if s.len() > 0 {
        let rest = s.drop_last();
        assert forall|i: int| 0 <= i < rest.len() implies f(#[trigger] rest[i]) by {
            assert(rest[i] == s[i]);
        }
        lemma_filter_all(rest, f);
        assert(s =~= rest.push(s.last()));
    } else {
        assert(s.filter(f) =~= s);
    }
}

/// A new row has as many cells as its template, and keeps every field of it but the content. It
/// leaves out the comment marks, unless it takes the template's place.
pub proof fn law_new_rows_have_as_many_cells(
    d: Dialect,
    template: Tree,
    line: Seq<char>,
    keeps_old: bool,
)
    requires
        built_row(d, template, line, keeps_old) is Ok,
        template.takes_fields(),
    ensures
        kids(built_row(d, template, line, keeps_old)->Ok_0).len() == kids(template).len(),
        same_but_content(
            built_row(d, template, line, keeps_old)->Ok_0,
            mould(template, keeps_old),
        ),
{
    lemma_row_cells(d, template, line, keeps_old);
}

/// Each cell of a new row keeps every field of the template's cell but the content and the type.
/// The type is that of the template's cell, but for a further row below a header row, which gets
/// body cells. A cell of a row that does not take the template's place leaves out the comment
/// marks.
pub proof fn law_new_rows_keep_the_shape(
    d: Dialect,
    template: Tree,
    line: Seq<char>,
    keeps_old: bool,
    i: int,
)
    requires
        built_row(d, template, line, keeps_old) is Ok,
        template.takes_fields(),
        0 <= i < kids(built_row(d, template, line, keeps_old)->Ok_0).len(),
    ensures
        ({
            let row = built_row(d, template, line, keeps_old)->Ok_0;
            let (cell, old) = (kids(row)[i], kids(template)[i]);
            &&& forall|key: Seq<char>|
                key != "content"@ && key != "type"@ ==> #[trigger] cell.field(key) == mould(
                    old,
                    keeps_old,
                ).field(key)
            &&& kind(cell) == if !keeps_old && is_header_row(template) {
                Some("tableCell"@)
            } else {
                kind(old)
            }
        }),
{
    lemma_kinds_differ();
    lemma_row_cells(d, template, line, keeps_old);
}

/// In the row that takes the place of the old one, a cell whose Markdown does not change is the
/// old cell itself, marks included.
pub proof fn law_unchanged_cells_stay(d: Dialect, template: Tree, line: Seq<char>, i: int)
    requires
        built_row(d, template, line, true) is Ok,
        template.takes_fields(),
        0 <= i < kids(built_row(d, template, line, true)->Ok_0).len(),
    ensures
        ({
            let parsed = parsed_row(d, line, kids(template).len())->Ok_0;
            let cell = kids(built_row(d, template, line, true)->Ok_0)[i];
            let old = kids(template)[i];
            if cell_shown(d, parsed[i]) == cell_shown(d, old) {
                cell == old
            } else {
                kids(cell) == kids(parsed[i])
            }
        }),
{
    lemma_kinds_differ();
    lemma_row_cells(d, template, line, true);
}

/// What hangs below a filled cell hangs below the cell, or anchors nothing.
proof fn lemma_filled_anchors(cell: Tree, path: Seq<nat>, id: Seq<char>)
    requires
        filled(cell) is Some,
        path.len() > 0,
        anchored_at(filled(cell)->0, path, id),
    ensures
        anchored_at(cell, path, id),
{
    if kids(cell).len() == 0 {
        lemma_kinds_differ();
        lemma_with_kids(cell, seq![empty_paragraph()]);
        let p = empty_paragraph();
        assert(kids(p).len() == 0);
        assert(marks(p).len() == 0);
        assert(kids(filled(cell)->0) =~= seq![p]);
        assert(path[0] == 0);
        let rest = path.skip(1);
        if rest.len() == 0 {
            assert(node_at(p, rest) == p);
        } else {
            assert(has_path(p, rest));
        }
    }
}

/// Nodes with the same children have the same nodes below them.
proof fn lemma_same_below(a: Tree, b: Tree, path: Seq<nat>)
    requires
        kids(a) == kids(b),
        path.len() > 0,
    ensures
        has_path(a, path) == has_path(b, path),
        node_at(a, path) == node_at(b, path),
{
}

/// A new row copies no comment mark: neither the row nor a cell of it carries one, and a thread
/// that is anchored in it is anchored in what its line was parsed into.
pub proof fn law_new_rows_copy_no_comment(
    d: Dialect,
    template: Tree,
    line: Seq<char>,
    id: Seq<char>,
)
    requires
        built_row(d, template, line, false) is Ok,
        template.takes_fields(),
    ensures
        ({
            let row = built_row(d, template, line, false)->Ok_0;
            &&& forall|m: Tree| #[trigger] marks(row).contains(m) ==> !is_comment(m)
            &&& forall|i: int, m: Tree|
                0 <= i < kids(row).len() && #[trigger] marks(kids(row)[i]).contains(m)
                    ==> !is_comment(m)
            &&& anchored(row, id) ==> anchored(
                (d.parse)(one_row_table(line, kids(template).len())),
                id,
            )
        }),
{
    lemma_kinds_differ();
    lemma_row_cells(d, template, line, false);
    let n = kids(template).len();
    let row = built_row(d, template, line, false)->Ok_0;
    let parsed = parsed_row(d, line, n)->Ok_0;
    law_only_comment_marks_go(template);
    assert forall|i: int, m: Tree|
        0 <= i < kids(row).len() && #[trigger] marks(kids(row)[i]).contains(m) implies !is_comment(
        m,
    ) by {
        let (cell, old) = (kids(row)[i], kids(template)[i]);
        law_only_comment_marks_go(old);
        assert(cell.field("marks"@) == uncommented(old).field("marks"@));
    }
    if anchored(row, id) {
        law_anchored_somewhere(row, id);
        let path = choose|path: Seq<nat>| #[trigger] anchored_at(row, path, id);
        if path.len() == 0 {
            lemma_no_anchor(marks(row), id);
        } else {
            let i = path[0] as int;
            let rest = path.skip(1);
            let cell = kids(row)[i];
            assert(node_at(row, path) == node_at(cell, rest));
            if rest.len() == 0 {
                lemma_no_anchor(marks(cell), id);
            } else {
                lemma_parsed_below(d, line, n, i, cell, rest, id);
            }
        }
    }
}

/// Marks without a comment anchor nothing.
proof fn lemma_no_anchor(ms: Seq<Tree>, id: Seq<char>)
    requires
        forall|m: Tree| #[trigger] ms.contains(m) ==> !is_comment(m),
    ensures
        !anchors(ms, id),
{
    if anchors(ms, id) {
        let j = choose|j: int| 0 <= j < ms.len() && #[trigger] comment_id(ms[j]) == Some(id);
        assert(ms.contains(ms[j]));
    }
}

/// What hangs below a cell that holds what a parsed cell holds hangs in the parsed document.
proof fn lemma_parsed_below(
    d: Dialect,
    line: Seq<char>,
    n: nat,
    i: int,
    cell: Tree,
    rest: Seq<nat>,
    id: Seq<char>,
)
    requires
        parsed_row(d, line, n) is Ok,
        0 <= i < n,
        kids(cell) == kids(parsed_row(d, line, n)->Ok_0[i]),
        rest.len() > 0,
        anchored_at(cell, rest, id),
    ensures
        anchored((d.parse)(one_row_table(line, n)), id),
{
    let parsed = parsed_row(d, line, n)->Ok_0;
    let doc = (d.parse)(one_row_table(line, n));
    let source = kids(table_rows(doc)[0]);
    lemma_filled_cells(source, source.len());
    assert(filled(source[i]) == Some(parsed[i]));
    lemma_same_below(cell, parsed[i], rest);
    assert(anchored_at(parsed[i], rest, id));
    lemma_filled_anchors(source[i], rest, id);
    let above = seq![0nat, 0nat, i as nat];
    reveal_with_fuel(has_path, 4);
    reveal_with_fuel(node_at, 4);
    assert(above.skip(1) =~= seq![0nat, i as nat]);
    assert(above.skip(1).skip(1) =~= seq![i as nat]);
    assert(above.skip(1).skip(1).skip(1) =~= Seq::<nat>::empty());
    assert(has_path(doc, above));
    assert(node_at(doc, above) == source[i]);
    lemma_path_add(doc, above, rest);
    assert(anchored_at(doc, above + rest, id));
    law_anchored_somewhere(doc, id);
}

/// Replacing a whole row keeps the threads of the cells whose Markdown does not change.
pub proof fn law_threads_of_unchanged_cells_stay(
    d: Dialect,
    doc: Tree,
    find: String,
    replace: String,
    i: nat,
    rest: Seq<nat>,
    id: Seq<char>,
)
    requires
        is_doc(doc),
        operation_result(d, doc, EditOperation::ReplaceText { find, replace }) is Ok,
        ({
            let (path, at) = text_hits(d, doc, find@)[0];
            let row = node_at(doc, path);
            let line = row_lines(replace@)[0];
            let parsed = parsed_row(d, line, kids(row).len())->Ok_0;
            &&& at is None
            &&& i < kids(row).len()
            &&& cell_shown(d, parsed[i as int]) == cell_shown(d, kids(row)[i as int])
            &&& anchored_at(kids(row)[i as int], rest, id)
        }),
    ensures
        anchored(
            operation_result(d, doc, EditOperation::ReplaceText { find, replace })->Ok_0.0,
            id,
        ),
{
    lemma_kinds_differ();
    let after = operation_result(d, doc, EditOperation::ReplaceText { find, replace })->Ok_0.0;
    let (path, at) = text_hits(d, doc, find@)[0];
    lemma_text_hits(d, doc, find@, visited(doc, Seq::empty()).len());
    assert(is_hit(d, doc, find@, text_hits(d, doc, find@)[0]));
    let row = node_at(doc, path);
    let rows = built_rows(d, row, replace@, false)->Ok_0;
    let line = row_lines(replace@)[0];
    law_one_row_per_line(d, row, replace@, false);
    assert(built_row(d, row, line, true) == Ok::<Tree, Failure<Seq<char>, nat>>(rows[0]));
    lemma_row_cells(d, row, line, true);
    law_unchanged_cells_stay(d, row, line, i as int);
    lemma_parent(doc, path);
    let up = path.drop_last();
    let k = path.last();
    let parent = node_at(doc, up);
    let content = kids(parent).take(k as int) + rows + kids(parent).skip(k as int + 1);
    lemma_with_kids(parent, content);
    law_set_is_found(doc, up, with_kids(parent, content));
    lemma_path_push(after, up, k);
    assert(content[k as int] == rows[0]);
    lemma_path_push(after, up.push(k), i);
    let there = up.push(k).push(i);
    assert(node_at(after, there) == kids(row)[i as int]);
    lemma_path_add(after, there, rest);
    assert(anchored_at(after, there + rest, id));
    law_anchored_somewhere(after, id);
}

} // verus!
