//! What each operation gives where it applies, and that it applies wherever it can.

use vstd::prelude::*;

use crate::failure::Failure;
use crate::inline::spliced;
use crate::json::Tree;
use crate::laws::appends::lemma_only_row;
use crate::laws::locality::{is_local_edit, law_append_table_row_is_local, law_set_is_found};
use crate::laws::matches::{is_anchor_row, is_only_match, law_one_match_is_unique};
use crate::laws::tables::{is_node, law_rows_are_made_wherever_they_can};
use crate::markdown::Dialect;
use crate::node::{has_path, kids, kind, node_at, pointer, set_at};
use crate::operations::{
    block_hits, is_doc, is_hit, is_textblock, kind_shown, lemma_kinds_differ, lemma_parent,
    lemma_with_kids, operation_result, text_hits, Applied, Hit,
};
use crate::rows::{built_rows, parsed_row, row_lines, row_shown, rows_shown};
use crate::text::offsets;
use crate::types::{EditOperation, InsertPosition};
use crate::wording::{decimal, preview_text};

verus! {

/// An operation without a text to look for fails, and says so.
pub proof fn law_empty_texts_are_refused(
    d: Dialect,
    doc: Tree,
    text: String,
    other: String,
    position: InsertPosition,
)
    requires
        text@.len() == 0,
    ensures
        operation_result(d, doc, EditOperation::ReplaceText { find: text, replace: other })
            == Applied::Err(Failure::EmptyFind),
        operation_result(
            d,
            doc,
            EditOperation::InsertBlocks { anchor: text, position, markdown: other },
        ) == Applied::Err(Failure::EmptyAnchor),
        operation_result(d, doc, EditOperation::AppendTableRow { anchor: text, row: other })
            == Applied::Err(Failure::EmptyAnchor),
{
}

/// Each occurrence in a further block counts, and one in no block does not.
pub proof fn law_each_occurrence_in_a_block_counts(
    d: Dialect,
    blocks: Seq<Tree>,
    anchor: Seq<char>,
    n: nat,
)
    requires
        n < blocks.len(),
    ensures
        block_hits(d, blocks, anchor, 0).len() == 0,
        block_hits(d, blocks, anchor, n + 1).len() == block_hits(d, blocks, anchor, n).len()
            + offsets((d.blocks)(seq![blocks[n as int]]), anchor).len(),
{
}

/// Where one block alone has occurrences, they are all there are.
proof fn lemma_only_block(d: Dialect, blocks: Seq<Tree>, anchor: Seq<char>, i: int, n: nat)
    requires
        n <= blocks.len(),
        forall|j: int|
            0 <= j < blocks.len() && j != i ==> offsets(
                (d.blocks)(seq![#[trigger] blocks[j]]),
                anchor,
            ).len() == 0,
    ensures
        block_hits(d, blocks, anchor, n).len() == if 0 <= i < n {
            offsets((d.blocks)(seq![blocks[i]]), anchor).len()
        } else {
            0
        },
        forall|k: int|
            0 <= k < block_hits(d, blocks, anchor, n).len() ==> #[trigger] block_hits(
                d,
                blocks,
                anchor,
                n,
            )[k] == i,
    decreases n,
{
    if n > 0 {
        lemma_only_block(d, blocks, anchor, i, (n - 1) as nat);
        let here = offsets((d.blocks)(seq![blocks[n - 1]]), anchor);
        if i != n - 1 {
            assert(here.len() == 0);
        }
    }
}

/// Blocks are inserted wherever they can be: if the anchor is not empty and occurs exactly once in
/// the renderings of the top-level blocks, and the Markdown gives at least one block, of whatever
/// type, all of them stand next to the block with the anchor, on the side that is asked for. The
/// document keeps its other blocks in order and its other fields. The change shows the new blocks.
pub proof fn law_blocks_are_inserted_wherever_they_can_be(
    d: Dialect,
    doc: Tree,
    anchor: String,
    position: InsertPosition,
    markdown: String,
    i: int,
)
    requires
        is_doc(doc),
        anchor@.len() > 0,
        0 <= i < kids(doc).len(),
        offsets((d.blocks)(seq![kids(doc)[i]]), anchor@).len() == 1,
        forall|j: int|
            0 <= j < kids(doc).len() && j != i ==> offsets(
                (d.blocks)(seq![#[trigger] kids(doc)[j]]),
                anchor@,
            ).len() == 0,
    ensures
        ({
            let blocks = (d.parse)(markdown@).list_field("content"@);
            let operation = EditOperation::InsertBlocks { anchor, position, markdown };
            let r = operation_result(d, doc, operation);
            let at = match position {
                InsertPosition::Before => i,
                InsertPosition::After => i + 1,
            };
            &&& blocks.len() == 0 ==> r == Applied::Err(Failure::NoBlocks)
            &&& blocks.len() > 0 ==> {
                &&& r matches Ok((after, change))
                &&& kids(after) == kids(doc).take(at) + blocks + kids(doc).skip(at)
                &&& forall|key: Seq<char>|
                    key != "content"@ ==> #[trigger] after.field(key) == doc.field(key)
                &&& change.before.len() == 0
                &&& change.after == (d.blocks)(blocks)
                &&& change.description == "insert_blocks: "@ + (match position {
                    InsertPosition::Before => "before"@,
                    InsertPosition::After => "after"@,
                }) + " block /content/"@ + decimal(i as nat) + " "@ + preview_text(
                    (d.blocks)(seq![kids(doc)[i]]),
                )
            }
        }),
{
    lemma_only_block(d, kids(doc), anchor@, i, kids(doc).len());
    let hits = block_hits(d, kids(doc), anchor@, kids(doc).len());
    assert(hits[0] == i);
    let blocks = kids((d.parse)(markdown@));
    let at = match position {
        InsertPosition::Before => i,
        InsertPosition::After => i + 1,
    };
    lemma_with_kids(doc, kids(doc).take(at) + blocks + kids(doc).skip(at));
}

/// The lines of a text can be made into rows like the template: there is one that is not blank,
/// each that is not is parsed into as many cells, and those of the template are nodes.
pub open spec fn can_be_rows(d: Dialect, template: Tree, markdown: Seq<char>) -> bool {
    &&& row_lines(markdown).len() > 0
    &&& forall|j: int|
        0 <= j < row_lines(markdown).len() ==> parsed_row(
            d,
            #[trigger] row_lines(markdown)[j],
            kids(template).len(),
        ) is Ok
    &&& forall|i: int| 0 <= i < kids(template).len() ==> is_node(#[trigger] kids(template)[i])
}

/// Rows are appended wherever they can be: if the anchor is not empty and occurs exactly once in
/// the renderings of the table rows, and the lines can be made into rows, one for each line stands
/// after the row with the anchor. The change shows the new rows.
pub proof fn law_rows_are_appended_wherever_they_can_be(
    d: Dialect,
    doc: Tree,
    anchor: String,
    row: String,
    path: Seq<nat>,
)
    requires
        is_doc(doc),
        anchor@.len() > 0,
        is_anchor_row(d, doc, anchor@, path),
        offsets(row_shown(d, node_at(doc, path)), anchor@).len() == 1,
        forall|q: Seq<nat>| #[trigger] is_anchor_row(d, doc, anchor@, q) ==> q == path,
    ensures
        ({
            let template = node_at(doc, path);
            let rows = built_rows(d, template, row@, true);
            let r = operation_result(d, doc, EditOperation::AppendTableRow { anchor, row });
            let at = path.last() as int + 1;
            &&& path.len() > 0
            &&& rows is Err ==> r == Applied::Err(rows->Err_0)
            &&& can_be_rows(d, template, row@) ==> rows is Ok
            &&& rows is Ok ==> {
                &&& r matches Ok((after, change))
                &&& rows->Ok_0.len() == row_lines(row@).len() > 0
                &&& is_local_edit(doc, after, path.drop_last(), at, at, rows->Ok_0)
                &&& change.before.len() == 0
                &&& change.after == rows_shown(d, rows->Ok_0)
                &&& change.description == "append_table_row: after row "@ + pointer(path) + " "@
                    + preview_text(row_shown(d, template))
            }
        }),
{
    lemma_kinds_differ();
    lemma_only_row(d, doc, anchor@, path);
    let template = node_at(doc, path);
    if can_be_rows(d, template, row@) {
        law_rows_are_made_wherever_they_can(d, template, row@, true);
    }
    if built_rows(d, template, row@, true) is Ok {
        crate::laws::rows::law_one_row_per_line(d, template, row@, true);
        law_append_table_row_is_local(d, doc, anchor, row);
    }
}

/// A whole row is replaced wherever it can be: if the row is the only match and the lines can be
/// made into rows, those stand in its place. The change shows the row and the new rows.
pub proof fn law_a_row_is_replaced_wherever_it_can_be(
    d: Dialect,
    doc: Tree,
    find: String,
    replace: String,
    path: Seq<nat>,
)
    requires
        is_doc(doc),
        find@.len() > 0,
        is_only_match(d, doc, find@, (path, None)),
    ensures
        ({
            let template = node_at(doc, path);
            let rows = built_rows(d, template, replace@, false);
            let r = operation_result(d, doc, EditOperation::ReplaceText { find, replace });
            let k = path.last() as int;
            &&& path.len() > 0
            &&& template.text_field("type"@) == Some("tableRow"@)
            &&& row_shown(d, template) == find@
            &&& rows is Err ==> r == Applied::Err(rows->Err_0)
            &&& can_be_rows(d, template, replace@) ==> rows is Ok
            &&& rows is Ok ==> {
                &&& r matches Ok((after, change))
                &&& rows->Ok_0.len() == row_lines(replace@).len() > 0
                &&& is_local_edit(doc, after, path.drop_last(), k, k + 1, rows->Ok_0)
                &&& change.before == find@
                &&& change.after == rows_shown(d, rows->Ok_0)
                &&& change.description == "replace_text: table row at "@ + pointer(path)
            }
        }),
{
    lemma_kinds_differ();
    assert(is_only_match(d, doc, find@, (path, None)));
    law_one_match_is_unique(d, doc, find@);
    let hit: Hit = (path, None);
    assert(is_hit(d, doc, find@, hit));
    assert(is_hit(d, doc, find@, text_hits(d, doc, find@)[0]));
    assert(text_hits(d, doc, find@)[0] == hit);
    let template = node_at(doc, path);
    lemma_parent(doc, path);
    if can_be_rows(d, template, replace@) {
        law_rows_are_made_wherever_they_can(d, template, replace@, false);
    }
    if built_rows(d, template, replace@, false) is Ok {
        crate::laws::rows::law_one_row_per_line(d, template, replace@, false);
    }
}

/// A span is replaced wherever it can be: if it is the only match, its block is the one in which
/// the span is replaced, and that block alone. The change shows the block before and after.
pub proof fn law_a_span_is_replaced_in_its_block(
    d: Dialect,
    doc: Tree,
    find: String,
    replace: String,
    path: Seq<nat>,
    at: int,
)
    requires
        is_doc(doc),
        find@.len() > 0,
        is_only_match(d, doc, find@, (path, Some(at))),
    ensures
        ({
            let block = node_at(doc, path);
            let new = spliced(d, block, at, find@, replace@);
            let r = operation_result(d, doc, EditOperation::ReplaceText { find, replace });
            &&& path.len() > 0
            &&& new is Err ==> r == Applied::Err(new->Err_0)
            &&& new is Ok ==> {
                &&& r matches Ok((after, change))
                &&& node_at(after, path) == new->Ok_0
                &&& after == set_at(doc, path, new->Ok_0)
                &&& change.before == (d.inline)(kids(block))
                &&& change.after == (d.inline)(kids(node_at(after, path)))
                &&& change.description == "replace_text: "@ + block.text_field("type"@)->0
                    + " at "@ + pointer(path)
            }
        }),
{
    lemma_kinds_differ();
    law_one_match_is_unique(d, doc, find@);
    let hit: Hit = (path, Some(at));
    assert(is_only_match(d, doc, find@, hit));
    assert(is_hit(d, doc, find@, hit));
    assert(is_hit(d, doc, find@, text_hits(d, doc, find@)[0]));
    assert(text_hits(d, doc, find@)[0] == hit);
    let block = node_at(doc, path);
    assert(is_textblock(block));
    if let Ok(new) = spliced(d, block, at, find@, replace@) {
        law_set_is_found(doc, path, new);
        crate::laws::spans::law_a_block_keeps_its_fields(d, block, at, find@, replace@);
        assert(kind_shown(new) == kind(block)->0);
    }
}

/// A match is one of two things: a block of text whose Markdown has the text at the offset, or a
/// table row whose Markdown is the text.
pub proof fn law_what_a_match_is(d: Dialect, doc: Tree, find: Seq<char>, path: Seq<nat>, at: int)
    ensures
        ({
            let t = node_at(doc, path);
            let name = t.text_field("type"@);
            &&& is_hit(d, doc, find, (path, Some(at))) <==> {
                &&& has_path(doc, path)
                &&& name == Some("paragraph"@) || name == Some("heading"@) || name == Some(
                    "codeBlock"@,
                ) || name == Some("detailsSummary"@)
                &&& offsets((d.inline)(t.list_field("content"@)), find).contains(at)
            }
            &&& is_hit(d, doc, find, (path, None)) <==> has_path(doc, path) && name == Some(
                "tableRow"@,
            ) && row_shown(d, t) == find
            &&& is_anchor_row(d, doc, find, path) <==> has_path(doc, path) && name == Some(
                "tableRow"@,
            ) && offsets(row_shown(d, t), find).len() > 0
        }),
{
}

} // verus!
