//! Table rows: how they are rendered, and how new ones are made from Markdown lines.

use vstd::prelude::*;
use vstd::string::*;

use crate::failure::{Failure, OperationError};
use crate::inline::{node_view, nodes_view};
use crate::json::{trees, Json, Tree};
use crate::markdown::{Dialect, Markdown};
use crate::marks::{drop_comments, lemma_filter_take, uncommented};
use crate::node::{children, is_a, kids, kind, replace_children, with_kids};
use crate::spacing::{
    blank, is_blank, join, joined, lines, lines_of, squeeze, squeezed, texts,
};
use crate::text::same_text;

verus! {

/// A cell of a table row.
pub open spec fn is_cell(t: Tree) -> bool {
    kind(t) == Some("tableCell"@) || kind(t) == Some("tableHeader"@)
}

/// A cell as the reader renders it inside a table row.
pub open spec fn cell_shown(d: Dialect, cell: Tree) -> Seq<char> {
    squeezed((d.blocks)(kids(cell)))
}

/// The cells of a row as the reader renders them.
pub open spec fn cells_shown(d: Dialect, row: Tree) -> Seq<Seq<char>> {
    kids(row).filter(|t: Tree| is_cell(t)).map_values(|t: Tree| cell_shown(d, t))
}

/// A table row as the reader renders it: `| a | b |`, or nothing for no cells.
pub open spec fn row_shown(d: Dialect, row: Tree) -> Seq<char> {
    let cells = cells_shown(d, row);
    if cells.len() == 0 {
        Seq::empty()
    } else {
        "| "@ + joined(cells, " | "@) + " |"@
    }
}

/// Rows as the reader renders them, one per line.
pub open spec fn rows_shown(d: Dialect, rows: Seq<Tree>) -> Seq<char> {
    joined(rows.map_values(|t: Tree| row_shown(d, t)), "\n"@)
}

/// `s`, `n` times.
pub open spec fn repeated(s: Seq<char>, n: nat) -> Seq<char>
    decreases n,
{
    if n == 0 {
        Seq::empty()
    } else {
        repeated(s, (n - 1) as nat) + s
    }
}

/// A Markdown table with `line` as its only row.
pub open spec fn one_row_table(line: Seq<char>, cells: nat) -> Seq<char> {
    line + "\n|"@ + repeated(" --- |"@, cells) + "\n"@
}

/// An empty paragraph.
pub open spec fn empty_paragraph() -> Tree {
    Tree::Object(Map::empty().insert("type"@, Tree::String("paragraph"@)))
}

/// A cell that has something in it. None if the value is no node.
pub open spec fn filled(cell: Tree) -> Option<Tree> {
    if kids(cell).len() > 0 {
        Some(cell)
    } else if cell.takes_fields() {
        Some(with_kids(cell, seq![empty_paragraph()]))
    } else {
        None
    }
}

/// The first `n` of the cells, each with something in it.
pub open spec fn filled_cells(cells: Seq<Tree>, n: nat) -> Result<
    Seq<Tree>,
    Failure<Seq<char>, nat>,
>
    decreases n,
{
    if n == 0 {
        Ok(Seq::empty())
    } else {
        match filled_cells(cells, (n - 1) as nat) {
            Ok(before) => match filled(cells[n - 1]) {
                Some(cell) => Ok(before.push(cell)),
                None => Err(Failure::NotANode),
            },
            Err(f) => Err(f),
        }
    }
}

/// The rows of a document that is one table.
pub open spec fn table_rows(doc: Tree) -> Seq<Tree> {
    let tops = kids(doc);
    if tops.len() == 1 && kind(tops[0]) == Some("table"@) {
        kids(tops[0])
    } else {
        Seq::empty()
    }
}

/// One `| a | b |` line as the given number of table cells.
pub open spec fn parsed_row(d: Dialect, line: Seq<char>, cells: nat) -> Result<
    Seq<Tree>,
    Failure<Seq<char>, nat>,
> {
    let rows = table_rows((d.parse)(one_row_table(line, cells)));
    if rows.len() == 1 && kids(rows[0]).len() == cells {
        filled_cells(kids(rows[0]), cells)
    } else {
        Err(Failure::RowShape { cells, line })
    }
}

/// Every cell of the row is a header cell.
pub open spec fn is_header_row(row: Tree) -> bool {
    forall|i: int|
        0 <= i < kids(row).len() ==> kind(#[trigger] kids(row)[i]) == Some("tableHeader"@)
}

/// What a node holds as its content.
pub open spec fn content_of(t: Tree) -> Tree {
    match t.field("content"@) {
        Some(c) => c,
        None => Tree::Null,
    }
}

/// A node that a new one is shaped like: the old node itself where the new one takes its place,
/// and the old node without its comment marks where it stays.
pub open spec fn mould(old: Tree, keeps_old: bool) -> Tree {
    if keeps_old {
        old
    } else {
        uncommented(old)
    }
}

/// A cell shaped like `old` that holds what `new` holds. In the row that takes the place of
/// the old one, a cell whose Markdown does not change is `old` itself; any other row copies no
/// comment mark, and gets body cells below a header row.
pub open spec fn built_cell(
    d: Dialect,
    new: Tree,
    old: Tree,
    keeps_old: bool,
    header_row: bool,
) -> Result<Tree, Failure<Seq<char>, nat>> {
    if keeps_old && cell_shown(d, new) == cell_shown(d, old) {
        Ok(old)
    } else if !old.takes_fields() {
        Err(Failure::NotANode)
    } else {
        let shape = if !keeps_old && header_row {
            mould(old, keeps_old).with("type"@, Tree::String("tableCell"@))
        } else {
            mould(old, keeps_old)
        };
        Ok(shape.with("content"@, content_of(new)))
    }
}

/// The first `n` cells of a new row.
pub open spec fn built_cells(
    d: Dialect,
    parsed: Seq<Tree>,
    template: Tree,
    keeps_old: bool,
    n: nat,
) -> Result<Seq<Tree>, Failure<Seq<char>, nat>>
    decreases n,
{
    if n == 0 {
        Ok(Seq::empty())
    } else {
        match built_cells(d, parsed, template, keeps_old, (n - 1) as nat) {
            Ok(before) => match built_cell(
                d,
                parsed[n - 1],
                kids(template)[n - 1],
                keeps_old,
                is_header_row(template),
            ) {
                Ok(cell) => Ok(before.push(cell)),
                Err(f) => Err(f),
            },
            Err(f) => Err(f),
        }
    }
}

/// A row made from a line, shaped like `template`: with as many cells.
pub open spec fn built_row(d: Dialect, template: Tree, line: Seq<char>, keeps_old: bool) -> Result<
    Tree,
    Failure<Seq<char>, nat>,
> {
    match parsed_row(d, line, kids(template).len()) {
        Ok(parsed) => match built_cells(d, parsed, template, keeps_old, kids(template).len()) {
            Ok(cells) => Ok(with_kids(mould(template, keeps_old), cells)),
            Err(f) => Err(f),
        },
        Err(f) => Err(f),
    }
}

/// The first `n` new rows. Without `fresh`, the first one takes the place of `template`.
pub open spec fn built_rows_of(
    d: Dialect,
    template: Tree,
    given: Seq<Seq<char>>,
    fresh: bool,
    n: nat,
) -> Result<Seq<Tree>, Failure<Seq<char>, nat>>
    decreases n,
{
    if n == 0 {
        Ok(Seq::empty())
    } else {
        match built_rows_of(d, template, given, fresh, (n - 1) as nat) {
            Ok(before) => match built_row(d, template, given[n - 1], !fresh && n == 1) {
                Ok(row) => Ok(before.push(row)),
                Err(f) => Err(f),
            },
            Err(f) => Err(f),
        }
    }
}

/// The lines that are not blank.
pub open spec fn row_lines(markdown: Seq<char>) -> Seq<Seq<char>> {
    lines(markdown).filter(|l: Seq<char>| !is_blank(l))
}

/// Rows made from Markdown lines, shaped like `template`.
pub open spec fn built_rows(d: Dialect, template: Tree, markdown: Seq<char>, fresh: bool) -> Result<
    Seq<Tree>,
    Failure<Seq<char>, nat>,
> {
    let given = row_lines(markdown);
    if given.len() == 0 {
        Err(Failure::NoRow)
    } else {
        built_rows_of(d, template, given, fresh, given.len())
    }
}

/// A text, `n` times.
fn repeat_text(s: &str, n: usize) -> (r: String)
    ensures
        r@ == repeated(s@, n as nat),
{
    let mut r: String = String::new();
    let mut i: usize = 0;
    while i < n
        invariant
            i <= n,
            r@ == repeated(s@, i as nat),
        decreases n - i,
    {
        r.append(s);
        i = i + 1;
    }
    r
}

/// A copy of a cell that has something in it.
fn fill(cell: &Json) -> (r: Option<Json>)
    ensures
        r is Some <==> filled(cell@) is Some,
        r matches Some(v) ==> filled(cell@) == Some(v@),
{
    let inner: &[Json] = children(cell);
    if inner.len() > 0 {
        assert(trees(inner@).len() > 0);
        return Some(cell.clone());
    }
    assert(kids(cell@).len() == 0);
    match cell {
        Json::Object(_) | Json::Null => {
            let mut content: Vec<Json> = Vec::new();
            content.push(Json::Null.with("type", Json::String("paragraph".to_owned())));
            assert(trees(content@) =~= seq![empty_paragraph()]);
            Some(replace_children(cell, content))
        },
        _ => None,
    }
}

/// Copies of the cells, each with something in it.
fn fill_all(cells: &[Json]) -> (r: Result<Vec<Json>, OperationError>)
    ensures
        nodes_view(r) == filled_cells(trees(cells@), cells@.len()),
{
    let ghost all = trees(cells@);
    let mut out: Vec<Json> = Vec::new();
    let mut i: usize = 0;
    assert(trees(out@) =~= Seq::<Tree>::empty());
    while i < cells.len()
        invariant
            i <= cells@.len(),
            all == trees(cells@),
            filled_cells(all, i as nat) == Ok::<Seq<Tree>, Failure<Seq<char>, nat>>(trees(out@)),
        decreases cells@.len() - i,
    {
        let ghost before = out@;
        assert(all[i as int] == cells@[i as int]@);
        match fill(&cells[i]) {
            Some(cell) => {
                out.push(cell);
                assert(trees(out@) =~= trees(before).push(cell@));
            },
            None => {
                proof {
                    lemma_filled_error(all, (i + 1) as nat, all.len());
                }
                return Err(Failure::NotANode);
            },
        }
        i = i + 1;
    }
    Ok(out)
}

/// A failure stays.
proof fn lemma_filled_error(cells: Seq<Tree>, i: nat, n: nat)
    requires
        i <= n,
        filled_cells(cells, i) is Err,
    ensures
        filled_cells(cells, n) == filled_cells(cells, i),
    decreases n - i,
{
    if i < n {
        lemma_filled_error(cells, i, (n - 1) as nat);
    }
}

/// A failure stays.
proof fn lemma_cells_error(
    d: Dialect,
    parsed: Seq<Tree>,
    template: Tree,
    keeps_old: bool,
    i: nat,
    n: nat,
)
    requires
        i <= n,
        built_cells(d, parsed, template, keeps_old, i) is Err,
    ensures
        built_cells(d, parsed, template, keeps_old, n) == built_cells(
            d,
            parsed,
            template,
            keeps_old,
            i,
        ),
    decreases n - i,
{
    if i < n {
        lemma_cells_error(d, parsed, template, keeps_old, i, (n - 1) as nat);
    }
}

/// A failure stays.
proof fn lemma_rows_error(
    d: Dialect,
    template: Tree,
    given: Seq<Seq<char>>,
    fresh: bool,
    i: nat,
    n: nat,
)
    requires
        i <= n,
        built_rows_of(d, template, given, fresh, i) is Err,
    ensures
        built_rows_of(d, template, given, fresh, n) == built_rows_of(d, template, given, fresh, i),
    decreases n - i,
{
    if i < n {
        lemma_rows_error(d, template, given, fresh, i, (n - 1) as nat);
    }
}

/// The filled cells, one by one.
pub proof fn lemma_filled_cells(cells: Seq<Tree>, n: nat)
    requires
        filled_cells(cells, n) is Ok,
    ensures
        filled_cells(cells, n)->Ok_0.len() == n,
        forall|i: int|
            0 <= i < n ==> filled(cells[i]) == Some(#[trigger] filled_cells(cells, n)->Ok_0[i]),
    decreases n,
{
    if n > 0 {
        lemma_filled_cells(cells, (n - 1) as nat);
    }
}

/// A copy of a node for a new one to be shaped like.
fn shape_of(old: &Json, keeps_old: bool) -> (r: Json)
    requires
        old@.takes_fields(),
    ensures
        r@ == mould(old@, keeps_old),
        r@.takes_fields(),
{
    if keeps_old {
        old.clone()
    } else {
        drop_comments(old)
    }
}

/// The lines of a text that are not blank.
fn lines_with_text(markdown: &str) -> (r: Vec<String>)
    ensures
        texts(r@) == row_lines(markdown@),
{
    let found: Vec<String> = lines_of(markdown);
    let ghost all = texts(found@);
    let ghost keep = |l: Seq<char>| !is_blank(l);
    let mut r: Vec<String> = Vec::new();
    let mut i: usize = 0;
    proof {
        assert(all.take(0) =~= Seq::<Seq<char>>::empty());
        assert(all.take(0).filter(keep) =~= Seq::<Seq<char>>::empty()) by {
            reveal(Seq::filter);
        }
        assert(texts(r@) =~= Seq::<Seq<char>>::empty());
    }
    while i < found.len()
        invariant
            i <= found@.len(),
            all == texts(found@),
            keep == (|l: Seq<char>| !is_blank(l)),
            texts(r@) == all.take(i as int).filter(keep),
        decreases found@.len() - i,
    {
        let ghost before = r@;
        assert(all[i as int] == found@[i as int]@);
        if !blank(found[i].as_str()) {
            r.push(found[i].clone());
            assert(texts(r@) =~= texts(before).push(all[i as int]));
        }
        proof {
            lemma_filter_take(all, keep, i as int);
        }
        i = i + 1;
    }
    assert(all.take(all.len() as int) =~= all);
    r
}

/// Whether every cell of a row is a header cell.
fn all_headers(cells: &[Json]) -> (r: bool)
    ensures
        r == (forall|i: int|
            0 <= i < cells@.len() ==> kind(#[trigger] trees(cells@)[i]) == Some("tableHeader"@)),
{
    let mut i: usize = 0;
    while i < cells.len()
        invariant
            i <= cells@.len(),
            forall|j: int|
                0 <= j < i ==> kind(#[trigger] trees(cells@)[j]) == Some("tableHeader"@),
        decreases cells@.len() - i,
    {
        assert(trees(cells@)[i as int] == cells@[i as int]@);
        if !is_a(&cells[i], "tableHeader") {
            return false;
        }
        i = i + 1;
    }
    true
}

impl<I: Fn(&[Json]) -> String, B: Fn(&[Json]) -> String, P: Fn(&str) -> Json> Markdown<I, B, P> {
    /// A cell as the reader renders it inside a table row.
    pub fn cell_markdown(&self, cell: &Json) -> (r: String)
        requires
            self.well_defined(),
        ensures
            r@ == cell_shown(self.dialect(), cell@),
    {
        squeeze(self.convert_nodes(children(cell)).as_str())
    }

    /// A table row as the reader renders it: `| a | b |`.
    pub fn row_markdown(&self, row: &Json) -> (r: String)
        requires
            self.well_defined(),
        ensures
            r@ == row_shown(self.dialect(), row@),
    {
        let ghost d = self.dialect();
        let nodes: &[Json] = children(row);
        let ghost all = trees(nodes@);
        let ghost keep = |t: Tree| is_cell(t);
        let ghost show = |t: Tree| cell_shown(d, t);
        let mut cells: Vec<String> = Vec::new();
        let mut i: usize = 0;
        proof {
            assert(all.take(0) =~= Seq::<Tree>::empty());
            assert(all.take(0).filter(keep) =~= Seq::<Tree>::empty()) by {
                reveal(Seq::filter);
            }
            assert(texts(cells@) =~= all.take(0).filter(keep).map_values(show));
        }
        while i < nodes.len()
            invariant
                i <= nodes@.len(),
                self.well_defined(),
                d == self.dialect(),
                all == trees(nodes@),
                keep == (|t: Tree| is_cell(t)),
                show == (|t: Tree| cell_shown(d, t)),
                texts(cells@) == all.take(i as int).filter(keep).map_values(show),
            decreases nodes@.len() - i,
        {
            let ghost before = cells@;
            assert(all[i as int] == nodes@[i as int]@);
            if is_a(&nodes[i], "tableCell") || is_a(&nodes[i], "tableHeader") {
                cells.push(self.cell_markdown(&nodes[i]));
                assert(texts(cells@) =~= texts(before).push(show(all[i as int])));
            }
            proof {
                lemma_filter_take(all, keep, i as int);
                assert(all.take(i as int).filter(keep).push(all[i as int]).map_values(show)
                    =~= all.take(i as int).filter(keep).map_values(show).push(
                    show(all[i as int]),
                ));
            }
            i = i + 1;
        }
        assert(all.take(all.len() as int) =~= all);
        assert(texts(cells@) == cells_shown(d, row@));
        assert(texts(cells@).len() == cells@.len());
        if cells.len() == 0 {
            return String::new();
        }
        "| ".to_owned().concat(join(&cells, " | ").as_str()).concat(" |")
    }

    /// Rows as the reader renders them, one per line.
    pub fn rows_markdown(&self, rows: &Vec<Json>) -> (r: String)
        requires
            self.well_defined(),
        ensures
            r@ == rows_shown(self.dialect(), trees(rows@)),
    {
        let ghost d = self.dialect();
        let mut shown: Vec<String> = Vec::new();
        let mut i: usize = 0;
        while i < rows.len()
            invariant
                i <= rows@.len(),
                self.well_defined(),
                d == self.dialect(),
                shown@.len() == i,
                forall|j: int| 0 <= j < i ==> (#[trigger] shown@[j])@ == row_shown(d, rows@[j]@),
            decreases rows@.len() - i,
        {
            shown.push(self.row_markdown(&rows[i]));
            i = i + 1;
        }
        assert(texts(shown@) =~= trees(rows@).map_values(|t: Tree| row_shown(d, t)));
        join(&shown, "\n")
    }

    /// Parse one `| a | b |` line into `cells` table cells.
    pub fn parse_row(&self, line: &str, cells: usize) -> (r: Result<Vec<Json>, OperationError>)
        requires
            self.well_defined(),
        ensures
            nodes_view(r) == parsed_row(self.dialect(), line@, cells as nat),
    {
        let markdown: String = line.to_owned().concat("\n|").concat(
            repeat_text(" --- |", cells).as_str(),
        ).concat("\n");
        let table: Json = self.markdown_to_prosemirror(markdown.as_str());
        let tops: &[Json] = children(&table);
        if tops.len() == 1 {
            assert(trees(tops@)[0] == tops@[0]@);
            if is_a(&tops[0], "table") {
                let rows: &[Json] = children(&tops[0]);
                if rows.len() == 1 {
                    assert(trees(rows@)[0] == rows@[0]@);
                    let parsed: &[Json] = children(&rows[0]);
                    assert(trees(parsed@).len() == parsed@.len());
                    if parsed.len() == cells {
                        return fill_all(parsed);
                    }
                }
            }
        }
        Err(Failure::RowShape { cells, line: line.to_owned() })
    }

    /// A cell shaped like `old` that holds what `new` holds.
    fn build_cell(&self, new: &Json, old: &Json, keeps_old: bool, header_row: bool) -> (r: Result<
        Json,
        OperationError,
    >)
        requires
            self.well_defined(),
        ensures
            node_view(r) == built_cell(self.dialect(), new@, old@, keeps_old, header_row),
    {
        if keeps_old {
            let (a, b): (String, String) = (self.cell_markdown(new), self.cell_markdown(old));
            if same_text(a.as_str(), b.as_str()) {
                return Ok(old.clone());
            }
        }
        match old {
            Json::Object(_) | Json::Null => {},
            _ => {
                return Err(Failure::NotANode);
            },
        }
        let content: Json = match new.get("content") {
            Some(c) => c.clone(),
            None => Json::Null,
        };
        let mould: Json = shape_of(old, keeps_old);
        let shape: Json = if !keeps_old && header_row {
            mould.with("type", Json::String("tableCell".to_owned()))
        } else {
            mould
        };
        Ok(shape.with("content", content))
    }

    /// A row made from a line, shaped like `template`.
    fn build_row(&self, template: &Json, line: &str, keeps_old: bool) -> (r: Result<
        Json,
        OperationError,
    >)
        requires
            self.well_defined(),
            template@.takes_fields(),
        ensures
            node_view(r) == built_row(self.dialect(), template@, line@, keeps_old),
    {
        let ghost d = self.dialect();
        let old: &[Json] = children(template);
        let header_row: bool = all_headers(old);
        assert(trees(old@).len() == old@.len());
        assert(header_row == is_header_row(template@));
        let parsed: Vec<Json> = match self.parse_row(line, old.len()) {
            Ok(cells) => cells,
            Err(f) => {
                return Err(f);
            },
        };
        let ghost new = trees(parsed@);
        let n: usize = old.len();
        proof {
            lemma_filled_cells(
                kids(table_rows((d.parse)(one_row_table(line@, n as nat)))[0]),
                n as nat,
            );
        }
        let mut cells: Vec<Json> = Vec::new();
        let mut i: usize = 0;
        assert(trees(cells@) =~= Seq::<Tree>::empty());
        while i < n
            invariant
                i <= n,
                n <= parsed@.len(),
                n <= old@.len(),
                self.well_defined(),
                d == self.dialect(),
                new == trees(parsed@),
                trees(old@) == kids(template@),
                header_row == is_header_row(template@),
                n == kids(template@).len(),
                parsed_row(d, line@, kids(template@).len()) == Ok::<
                    Seq<Tree>,
                    Failure<Seq<char>, nat>,
                >(new),
                built_cells(d, new, template@, keeps_old, i as nat) == Ok::<
                    Seq<Tree>,
                    Failure<Seq<char>, nat>,
                >(trees(cells@)),
            decreases n - i,
        {
            let ghost before = cells@;
            proof {
                assert(new[i as int] == parsed@[i as int]@);
                assert(kids(template@)[i as int] == old@[i as int]@);
            }
            match self.build_cell(&parsed[i], &old[i], keeps_old, header_row) {
                Ok(cell) => {
                    cells.push(cell);
                    assert(trees(cells@) =~= trees(before).push(cell@));
                },
                Err(f) => {
                    proof {
                        lemma_cells_error(d, new, template@, keeps_old, (i + 1) as nat, n as nat);
                    }
                    return Err(f);
                },
            }
            i = i + 1;
        }
        Ok(replace_children(&shape_of(template, keeps_old), cells))
    }

    /// Build rows from Markdown lines, shaped like `template` (cell types and attrs). Without
    /// `fresh`, the first line maps onto `template` itself: a cell whose Markdown is unchanged
    /// is kept as is, marks included. Every other row gets new cells, so no comment mark is
    /// ever copied.
    pub fn build_rows(&self, template: &Json, markdown: &str, fresh: bool) -> (r: Result<
        Vec<Json>,
        OperationError,
    >)
        requires
            self.well_defined(),
            template@.takes_fields(),
        ensures
            nodes_view(r) == built_rows(self.dialect(), template@, markdown@, fresh),
    {
        let ghost d = self.dialect();
        let given: Vec<String> = lines_with_text(markdown);
        let ghost all = texts(given@);
        assert(all.len() == given@.len());
        if given.len() == 0 {
            return Err(Failure::NoRow);
        }
        let mut rows: Vec<Json> = Vec::new();
        let mut i: usize = 0;
        assert(trees(rows@) =~= Seq::<Tree>::empty());
        while i < given.len()
            invariant
                i <= given@.len(),
                self.well_defined(),
                d == self.dialect(),
                all == texts(given@),
                all == row_lines(markdown@),
                all.len() > 0,
                template@.takes_fields(),
                built_rows_of(d, template@, all, fresh, i as nat) == Ok::<
                    Seq<Tree>,
                    Failure<Seq<char>, nat>,
                >(trees(rows@)),
            decreases given@.len() - i,
        {
            let ghost before = rows@;
            assert(all[i as int] == given@[i as int]@);
            match self.build_row(template, given[i].as_str(), !fresh && i == 0) {
                Ok(row) => {
                    rows.push(row);
                    assert(trees(rows@) =~= trees(before).push(row@));
                },
                Err(f) => {
                    proof {
                        lemma_rows_error(d, template@, all, fresh, (i + 1) as nat, all.len());
                    }
                    return Err(f);
                },
            }
            i = i + 1;
        }
        Ok(rows)
    }
}

} // verus!
