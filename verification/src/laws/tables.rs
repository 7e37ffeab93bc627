//! Table rows: what one shows, cell by cell, and what a new one holds.

use vstd::prelude::*;

use crate::failure::Failure;
use crate::json::Tree;
use crate::laws::rows::{
    law_one_row_per_line, law_only_comment_marks_go, lemma_filter_all, lemma_row_cells,
};
use crate::laws::values::{law_a_header_row_has_header_cells, law_a_new_text_node_is_bare};
use crate::laws::wording::law_texts_are_joined_in_order;
use crate::markdown::Dialect;
use crate::marks::is_comment;
use crate::node::{kids, marks};
use crate::operations::{lemma_kinds_differ, lemma_with_kids};
use crate::rows::{
    built_cells, built_row, built_rows, built_rows_of, cell_shown, cells_shown, filled,
    filled_cells, is_cell, lemma_filled_cells, mould, one_row_table, parsed_row,
    repeated, row_lines, row_shown, rows_shown, table_rows,
};
use crate::spacing::squeezed;

verus! {

/// A cell of a table row, by its type.
pub open spec fn has_cell_type(t: Tree) -> bool {
    t.text_field("type"@) == Some("tableCell"@) || t.text_field("type"@) == Some("tableHeader"@)
}

/// A row shows a field for each of its cells, in order, also for one that shows nothing: a
/// further cell adds one field, and a further child that is no cell adds none.
pub proof fn law_a_row_shows_each_cell(d: Dialect, row: Tree, longer: Tree, cell: Tree)
    requires
        kids(longer) == kids(row).push(cell),
    ensures
        ({
            let shown = squeezed((d.blocks)(cell.list_field("content"@)));
            &&& has_cell_type(cell) ==> cells_shown(d, longer) == cells_shown(d, row).push(shown)
            &&& !has_cell_type(cell) ==> cells_shown(d, longer) == cells_shown(d, row)
            &&& has_cell_type(cell) && cells_shown(d, row).len() == 0 ==> row_shown(d, longer)
                == "| "@ + shown + " |"@
            &&& has_cell_type(cell) && cells_shown(d, row).len() > 0 ==> row_shown(d, longer)
                == row_shown(d, row) + " "@ + shown + " |"@
            &&& !has_cell_type(cell) ==> row_shown(d, longer) == row_shown(d, row)
        }),
{
    let keep = |t: Tree| is_cell(t);
    let show = |t: Tree| cell_shown(d, t);
    let old = kids(row);
    reveal(Seq::filter);
    assert(old.push(cell).drop_last() =~= old);
    let shown = cell_shown(d, cell);
    if is_cell(cell) {
        assert(old.filter(keep).push(cell).map_values(show) =~= old.filter(keep).map_values(
            show,
        ).push(shown));
        let cells = cells_shown(d, row);
        assert(cells_shown(d, longer) == cells.push(shown));
        law_texts_are_joined_in_order(cells, shown, " | "@);
        if cells.len() == 0 {
            assert(cells.push(shown) =~= seq![shown]);
        } else {
            reveal_strlit("| ");
            reveal_strlit(" | ");
            reveal_strlit(" |");
            reveal_strlit(" ");
            assert(row_shown(d, longer) =~= row_shown(d, row) + " "@ + shown + " |"@);
        }
    }
}

/// A row without children shows nothing.
pub proof fn law_a_row_without_children_shows_nothing(d: Dialect, row: Tree)
    requires
        kids(row).len() == 0,
    ensures
        cells_shown(d, row).len() == 0,
        row_shown(d, row).len() == 0,
{
    let keep = |t: Tree| is_cell(t);
    kids(row).lemma_filter_len(keep);
}

/// A row of cells shows as many fields as it has cells, each the rendering of its cell with the
/// words one space apart.
pub proof fn law_a_row_of_cells_shows_them_all(d: Dialect, row: Tree)
    requires
        forall|i: int| 0 <= i < kids(row).len() ==> has_cell_type(#[trigger] kids(row)[i]),
    ensures
        cells_shown(d, row).len() == kids(row).len(),
        forall|i: int|
            0 <= i < kids(row).len() ==> #[trigger] cells_shown(d, row)[i] == squeezed(
                (d.blocks)(kids(row)[i].list_field("content"@)),
            ),
{
    let keep = |t: Tree| is_cell(t);
    assert forall|i: int| 0 <= i < kids(row).len() implies keep(#[trigger] kids(row)[i]) by {
        assert(has_cell_type(kids(row)[i]));
    }
    lemma_filter_all(kids(row), keep);
}

/// Rows are shown one per line.
pub proof fn law_rows_are_shown_line_by_line(d: Dialect, rows: Seq<Tree>, row: Tree)
    ensures
        rows_shown(d, seq![row]) == row_shown(d, row),
        rows.len() > 0 ==> rows_shown(d, rows.push(row)) == rows_shown(d, rows) + "\n"@
            + row_shown(d, row),
{
    let show = |t: Tree| row_shown(d, t);
    assert(seq![row].map_values(show) =~= seq![row_shown(d, row)]);
    assert(rows.push(row).map_values(show) =~= rows.map_values(show).push(row_shown(d, row)));
    law_texts_are_joined_in_order(rows.map_values(show), row_shown(d, row), "\n"@);
}

/// A line is parsed as the only row of a table: with a delimiter row of as many cells below it.
pub proof fn law_a_line_is_parsed_as_a_table(line: Seq<char>, n: nat)
    ensures
        one_row_table(line, 0) == line + "\n|\n"@,
        one_row_table(line, n + 1) == one_row_table(line, n).drop_last() + " --- |\n"@,
{
    reveal_strlit("\n|");
    reveal_strlit("\n");
    reveal_strlit("\n|\n");
    reveal_strlit(" --- |");
    reveal_strlit(" --- |\n");
    assert(repeated(" --- |"@, 0) =~= Seq::<char>::empty());
    assert(one_row_table(line, 0) =~= line + "\n|\n"@);
    assert(repeated(" --- |"@, n + 1) =~= repeated(" --- |"@, n) + " --- |"@);
    assert(one_row_table(line, n + 1) =~= one_row_table(line, n).drop_last() + " --- |\n"@);
}

/// The row that a line is parsed into: the only row of the only block, a table, with the given
/// number of cells.
pub open spec fn is_parsed_row(d: Dialect, line: Seq<char>, n: nat, table: Tree, row: Tree) -> bool {
    &&& kids((d.parse)(one_row_table(line, n))) == seq![table]
    &&& table.text_field("type"@) == Some("table"@)
    &&& kids(table) == seq![row]
    &&& kids(row).len() == n
}

/// A value that fields can be set on: an object, or null, which stands for an empty one.
pub open spec fn is_node(t: Tree) -> bool {
    t == Tree::Null || t is Object
}

/// A line that is parsed into one table row with the right number of cells gives those cells,
/// each as it was parsed; one without content gets an empty paragraph.
pub proof fn law_a_parsed_line_gives_its_cells(
    d: Dialect,
    line: Seq<char>,
    n: nat,
    table: Tree,
    row: Tree,
)
    requires
        is_parsed_row(d, line, n, table, row),
        forall|i: int| 0 <= i < n ==> is_node(#[trigger] kids(row)[i]),
    ensures
        parsed_row(d, line, n) is Ok,
        parsed_row(d, line, n)->Ok_0.len() == n,
        forall|i: int|
            0 <= i < n ==> {
                let (cell, from) = (#[trigger] parsed_row(d, line, n)->Ok_0[i], kids(row)[i]);
                &&& kids(from).len() > 0 ==> cell == from
                &&& kids(from).len() == 0 ==> kids(cell) == seq![
                    Tree::Object(map!["type"@ => Tree::String("paragraph"@)]),
                ] && forall|key: Seq<char>|
                    key != "content"@ ==> #[trigger] cell.field(key) == from.field(key)
            },
{
    law_a_new_text_node_is_bare(Seq::empty());
    let doc = (d.parse)(one_row_table(line, n));
    assert(kids(doc)[0] == table && kids(table)[0] == row);
    assert(table_rows(doc) == kids(table));
    let cells = kids(row);
    lemma_fill(cells, n);
    lemma_filled_cells(cells, n);
    assert forall|i: int| 0 <= i < n implies {
        let (cell, from) = (#[trigger] parsed_row(d, line, n)->Ok_0[i], kids(row)[i]);
        &&& kids(from).len() > 0 ==> cell == from
        &&& kids(from).len() == 0 ==> kids(cell) == seq![
            Tree::Object(map!["type"@ => Tree::String("paragraph"@)]),
        ] && forall|key: Seq<char>|
            key != "content"@ ==> #[trigger] cell.field(key) == from.field(key)
    } by {
        assert(filled(cells[i]) == Some(filled_cells(cells, n)->Ok_0[i]));
        lemma_with_kids(cells[i], seq![crate::rows::empty_paragraph()]);
    }
}

proof fn lemma_fill(cells: Seq<Tree>, n: nat)
    requires
        n <= cells.len(),
        forall|i: int| 0 <= i < n ==> is_node(#[trigger] cells[i]),
    ensures
        filled_cells(cells, n) is Ok,
    decreases n,
{
    if n > 0 {
        lemma_fill(cells, (n - 1) as nat);
        assert(is_node(cells[n - 1]));
    }
}

/// A line that is not parsed into one table row with the right number of cells is refused.
pub proof fn law_a_line_of_another_shape_is_refused(d: Dialect, line: Seq<char>, n: nat)
    requires
        forall|table: Tree, row: Tree| !#[trigger] is_parsed_row(d, line, n, table, row),
    ensures
        parsed_row(d, line, n) == Err::<Seq<Tree>, Failure<Seq<char>, nat>>(
            Failure::RowShape { cells: n, line },
        ),
{
    let doc = (d.parse)(one_row_table(line, n));
    let rows = table_rows(doc);
    if rows.len() == 1 && kids(rows[0]).len() == n {
        let table = kids(doc)[0];
        assert(kids(doc) =~= seq![table]);
        assert(kids(table) =~= seq![rows[0]]);
        assert(is_parsed_row(d, line, n, table, rows[0]));
    }
}

/// Each cell of an appended row holds what its line was parsed into, whatever the cells of the
/// row above hold.
pub proof fn law_new_cells_hold_what_was_parsed(
    d: Dialect,
    template: Tree,
    line: Seq<char>,
    i: int,
)
    requires
        built_row(d, template, line, false) is Ok,
        is_node(template),
        0 <= i < kids(template).len(),
    ensures
        ({
            let row = built_row(d, template, line, false)->Ok_0;
            let parsed = parsed_row(d, line, kids(template).len())->Ok_0;
            let (cell, old) = (kids(row)[i], kids(template)[i]);
            &&& kids(row).len() == kids(template).len() == parsed.len()
            &&& kids(cell) == kids(parsed[i])
            &&& kids(cell).len() > 0 ==> cell.field("content"@) == parsed[i].field("content"@)
            &&& forall|key: Seq<char>|
                key != "content"@ && key != "type"@ && key != "marks"@ ==> #[trigger] cell.field(
                    key,
                ) == old.field(key)
            &&& marks(cell) == marks(old).filter(|m: Tree| !is_comment(m))
            &&& (cell.field("marks"@) is Some <==> old.field("marks"@) is Some)
        }),
{
    lemma_kinds_differ();
    lemma_row_cells(d, template, line, false);
    let row = built_row(d, template, line, false)->Ok_0;
    let (cell, old) = (kids(row)[i], kids(template)[i]);
    law_only_comment_marks_go(old);
    assert(cell.field("marks"@) == mould(old, false).field("marks"@));
}

/// The row itself keeps every field of its template but the content, and its comment marks if it
/// takes the template's place, which a new row does not.
pub proof fn law_rows_keep_their_own_fields(
    d: Dialect,
    template: Tree,
    line: Seq<char>,
    keeps_old: bool,
)
    requires
        built_row(d, template, line, keeps_old) is Ok,
        is_node(template),
    ensures
        ({
            let row = built_row(d, template, line, keeps_old)->Ok_0;
            &&& forall|key: Seq<char>|
                key != "content"@ && key != "marks"@ ==> #[trigger] row.field(key)
                    == template.field(key)
            &&& keeps_old ==> row.field("marks"@) == template.field("marks"@)
            &&& !keeps_old ==> marks(row) == marks(template).filter(|m: Tree| !is_comment(m))
        }),
{
    lemma_kinds_differ();
    lemma_row_cells(d, template, line, keeps_old);
    law_only_comment_marks_go(template);
    let row = built_row(d, template, line, keeps_old)->Ok_0;
    assert(row.field("marks"@) == mould(template, keeps_old).field("marks"@));
}

/// In the row that takes the old one's place, a cell whose Markdown is the same is the old cell,
/// and any other one is the old cell with the content that was parsed.
pub proof fn law_the_first_row_takes_the_place_of_the_old(
    d: Dialect,
    template: Tree,
    line: Seq<char>,
    i: int,
)
    requires
        built_row(d, template, line, true) is Ok,
        is_node(template),
        0 <= i < kids(template).len(),
    ensures
        ({
            let row = built_row(d, template, line, true)->Ok_0;
            let parsed = parsed_row(d, line, kids(template).len())->Ok_0;
            let (cell, old) = (kids(row)[i], kids(template)[i]);
            let same = squeezed((d.blocks)(kids(parsed[i]))) == squeezed((d.blocks)(kids(old)));
            &&& kids(row).len() == kids(template).len() == parsed.len()
            &&& same ==> cell == old
            &&& !same ==> kids(cell) == kids(parsed[i]) && forall|key: Seq<char>|
                key != "content"@ ==> #[trigger] cell.field(key) == old.field(key)
        }),
{
    lemma_kinds_differ();
    lemma_row_cells(d, template, line, true);
}

/// A new row has cells of the types of its template, and body cells below a header row.
pub proof fn law_new_cells_have_the_right_type(
    d: Dialect,
    template: Tree,
    line: Seq<char>,
    i: int,
)
    requires
        built_row(d, template, line, false) is Ok,
        is_node(template),
        0 <= i < kids(template).len(),
    ensures
        ({
            let cell = kids(built_row(d, template, line, false)->Ok_0)[i];
            if forall|j: int|
                0 <= j < kids(template).len() ==> (#[trigger] kids(template)[j]).text_field("type"@)
                    == Some("tableHeader"@) {
                cell.text_field("type"@) == Some("tableCell"@)
            } else {
                cell.field("type"@) == kids(template)[i].field("type"@)
            }
        }),
{
    lemma_kinds_differ();
    lemma_row_cells(d, template, line, false);
    law_a_header_row_has_header_cells(template);
    law_only_comment_marks_go(kids(template)[i]);
}

/// Cells can be made from any template whose cells are nodes.
proof fn lemma_cells_ok(
    d: Dialect,
    parsed: Seq<Tree>,
    template: Tree,
    keeps_old: bool,
    n: nat,
)
    requires
        n <= kids(template).len(),
        forall|i: int| 0 <= i < kids(template).len() ==> is_node(#[trigger] kids(template)[i]),
    ensures
        built_cells(d, parsed, template, keeps_old, n) is Ok,
    decreases n,
{
    if n > 0 {
        lemma_cells_ok(d, parsed, template, keeps_old, (n - 1) as nat);
        assert(is_node(kids(template)[n - 1]));
    }
}

proof fn lemma_rows_ok(
    d: Dialect,
    template: Tree,
    given: Seq<Seq<char>>,
    fresh: bool,
    n: nat,
)
    requires
        n <= given.len(),
        forall|i: int| 0 <= i < kids(template).len() ==> is_node(#[trigger] kids(template)[i]),
        forall|j: int|
            0 <= j < given.len() ==> parsed_row(d, #[trigger] given[j], kids(template).len()) is Ok,
    ensures
        built_rows_of(d, template, given, fresh, n) is Ok,
    decreases n,
{
    if n > 0 {
        lemma_rows_ok(d, template, given, fresh, (n - 1) as nat);
        let line = given[n - 1];
        let parsed = parsed_row(d, line, kids(template).len())->Ok_0;
        lemma_cells_ok(d, parsed, template, !fresh && n == 1, kids(template).len());
    }
}

/// Rows are made wherever they can: if there is a line that is not blank, each such line is
/// parsed into a row with as many cells as the template, and those of the template are nodes,
/// there is a row for each line. Without a line there is none.
pub proof fn law_rows_are_made_wherever_they_can(
    d: Dialect,
    template: Tree,
    markdown: Seq<char>,
    fresh: bool,
)
    requires
        forall|i: int| 0 <= i < kids(template).len() ==> is_node(#[trigger] kids(template)[i]),
    ensures
        row_lines(markdown).len() == 0 <==> built_rows(d, template, markdown, fresh) == Err::<
            Seq<Tree>,
            Failure<Seq<char>, nat>,
        >(Failure::NoRow),
        row_lines(markdown).len() > 0 && (forall|j: int|
            0 <= j < row_lines(markdown).len() ==> parsed_row(
                d,
                #[trigger] row_lines(markdown)[j],
                kids(template).len(),
            ) is Ok) ==> built_rows(d, template, markdown, fresh) is Ok && built_rows(
            d,
            template,
            markdown,
            fresh,
        )->Ok_0.len() == row_lines(markdown).len(),
{
    let given = row_lines(markdown);
    if given.len() > 0 {
        lemma_not_no_row(d, template, given, fresh, given.len());
        if forall|j: int|
            0 <= j < given.len() ==> parsed_row(d, #[trigger] given[j], kids(template).len()) is Ok {
            lemma_rows_ok(d, template, given, fresh, given.len());
            law_one_row_per_line(d, template, markdown, fresh);
        }
    }
}

/// A row fails where its line does, and else only where a cell of the template is no node.
pub proof fn law_a_row_fails_where_its_line_does(
    d: Dialect,
    template: Tree,
    line: Seq<char>,
    keeps_old: bool,
)
    ensures
        ({
            let parsed = parsed_row(d, line, kids(template).len());
            let r = built_row(d, template, line, keeps_old);
            &&& parsed is Err ==> r == Err::<Tree, Failure<Seq<char>, nat>>(parsed->Err_0)
            &&& parsed is Ok && (forall|i: int|
                0 <= i < kids(template).len() ==> is_node(#[trigger] kids(template)[i])) ==> r is Ok
            &&& parsed is Ok && r is Err ==> r == Err::<Tree, Failure<Seq<char>, nat>>(
                Failure::NotANode,
            )
        }),
{
    let n = kids(template).len();
    if let Ok(parsed) = parsed_row(d, line, n) {
        lemma_cells_failure(d, parsed, template, keeps_old, n);
        if forall|i: int| 0 <= i < n ==> is_node(#[trigger] kids(template)[i]) {
            lemma_cells_ok(d, parsed, template, keeps_old, n);
        }
    }
}

/// Rows fail with the error of the first line that fails.
pub proof fn law_rows_fail_with_the_first_bad_line(
    d: Dialect,
    template: Tree,
    markdown: Seq<char>,
    fresh: bool,
    j: int,
)
    requires
        0 <= j < row_lines(markdown).len(),
        forall|i: int|
            0 <= i < j ==> built_row(d, template, #[trigger] row_lines(markdown)[i], !fresh && i == 0)
                is Ok,
        built_row(d, template, row_lines(markdown)[j], !fresh && j == 0) is Err,
    ensures
        built_rows(d, template, markdown, fresh) == Err::<Seq<Tree>, Failure<Seq<char>, nat>>(
            built_row(d, template, row_lines(markdown)[j], !fresh && j == 0)->Err_0,
        ),
{
    let given = row_lines(markdown);
    lemma_rows_until(d, template, given, fresh, j, given.len());
}

proof fn lemma_rows_until(
    d: Dialect,
    template: Tree,
    given: Seq<Seq<char>>,
    fresh: bool,
    j: int,
    n: nat,
)
    requires
        0 <= j < given.len(),
        n <= given.len(),
        forall|i: int|
            0 <= i < j ==> built_row(d, template, #[trigger] given[i], !fresh && i == 0) is Ok,
        built_row(d, template, given[j], !fresh && j == 0) is Err,
    ensures
        n <= j ==> built_rows_of(d, template, given, fresh, n) is Ok,
        n > j ==> built_rows_of(d, template, given, fresh, n) == Err::<
            Seq<Tree>,
            Failure<Seq<char>, nat>,
        >(built_row(d, template, given[j], !fresh && j == 0)->Err_0),
    decreases n,
{
    if n > 0 {
        lemma_rows_until(d, template, given, fresh, j, (n - 1) as nat);
        if n <= j {
            assert(built_row(d, template, given[n - 1], !fresh && n - 1 == 0) is Ok);
        }
    }
}

/// Lines do not fail for want of a line.
proof fn lemma_not_no_row(
    d: Dialect,
    template: Tree,
    given: Seq<Seq<char>>,
    fresh: bool,
    n: nat,
)
    ensures
        built_rows_of(d, template, given, fresh, n) matches Err(f) ==> f != Failure::<
            Seq<char>,
            nat,
        >::NoRow,
    decreases n,
{
    if n > 0 {
        lemma_not_no_row(d, template, given, fresh, (n - 1) as nat);
        let m = kids(template).len();
        let line = given[n - 1];
        lemma_filled_failure(
            kids(table_rows((d.parse)(one_row_table(line, m)))[0]),
            m,
        );
        if let Ok(parsed) = parsed_row(d, line, m) {
            lemma_cells_failure(d, parsed, template, !fresh && n == 1, m);
        }
    }
}

proof fn lemma_filled_failure(cells: Seq<Tree>, n: nat)
    ensures
        filled_cells(cells, n) matches Err(f) ==> f == Failure::<Seq<char>, nat>::NotANode,
    decreases n,
{
    if n > 0 {
        lemma_filled_failure(cells, (n - 1) as nat);
    }
}

proof fn lemma_cells_failure(
    d: Dialect,
    parsed: Seq<Tree>,
    template: Tree,
    keeps_old: bool,
    n: nat,
)
    ensures
        built_cells(d, parsed, template, keeps_old, n) matches Err(f) ==> f == Failure::<
            Seq<char>,
            nat,
        >::NotANode,
    decreases n,
{
    if n > 0 {
        lemma_cells_failure(d, parsed, template, keeps_old, (n - 1) as nat);
    }
}

} // verus!
