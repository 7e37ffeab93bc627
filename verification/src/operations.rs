//! The three operations on a document.

use vstd::prelude::*;
use vstd::string::*;

use crate::failure::{Failure, OperationError};
use crate::inline::{add_all, spliced};
use crate::json::{trees, Json, Tree};
use crate::markdown::{Dialect, Markdown};
use crate::node::{
    append_copies, children, find_node, has_path, is_a, kids, kind, lemma_path_push,
    lemma_visited, marks, node_at, node_type, places, pointer, pointer_text, replace_children,
    replace_node, set_at, steps, visited, walk, with_kids, Place,
};
use crate::rows::{built_rows, row_shown, rows_shown};
use crate::text::{
    find_all, lemma_offsets_before, lemma_width_take, occurs_at, offsets, same_text, width,
};
use crate::types::{Change, EditChange, EditOperation, InsertPosition};
use crate::wording::{decimal, number_text, preview, preview_text};

verus! {

/// A ProseMirror document.
pub open spec fn is_doc(t: Tree) -> bool {
    kind(t) == Some("doc"@)
}

/// A node whose children are inline content, the unit that a replaced span must lie in.
pub open spec fn is_textblock(t: Tree) -> bool {
    ||| kind(t) == Some("paragraph"@)
    ||| kind(t) == Some("heading"@)
    ||| kind(t) == Some("codeBlock"@)
    ||| kind(t) == Some("detailsSummary"@)
}

/// What an operation makes of a document.
pub type Applied = Result<(Tree, Change), Failure<Seq<char>, nat>>;

/// A match of `find`: the path of a block and the offset in its Markdown, or the path of a row.
pub type Hit = (Seq<nat>, Option<int>);

/// The matches of `find` at one node.
pub open spec fn hits_at(d: Dialect, place: (Seq<nat>, Tree), find: Seq<char>) -> Seq<Hit> {
    let (path, t) = place;
    if is_textblock(t) {
        offsets((d.inline)(kids(t)), find).map_values(|at: int| (path, Some(at)))
    } else if kind(t) == Some("tableRow"@) && row_shown(d, t) == find {
        seq![(path, None::<int>)]
    } else {
        Seq::empty()
    }
}

/// The matches of `find` at the first `n` nodes.
pub open spec fn hits_among(
    d: Dialect,
    nodes: Seq<(Seq<nat>, Tree)>,
    find: Seq<char>,
    n: nat,
) -> Seq<Hit>
    decreases n,
{
    if n == 0 {
        Seq::empty()
    } else {
        hits_among(d, nodes, find, (n - 1) as nat) + hits_at(d, nodes[n - 1], find)
    }
}

/// The matches of `find` in a document.
pub open spec fn text_hits(d: Dialect, doc: Tree, find: Seq<char>) -> Seq<Hit> {
    let nodes = visited(doc, Seq::empty());
    hits_among(d, nodes, find, nodes.len())
}

/// The document with `new` after the node at `path`, which stays if `keep` is 1 and goes if it
/// is 0.
pub open spec fn with_siblings(doc: Tree, path: Seq<nat>, keep: nat, new: Seq<Tree>) -> Tree {
    let parent = node_at(doc, path.drop_last());
    let i = path.last() as int;
    set_at(
        doc,
        path.drop_last(),
        with_kids(parent, kids(parent).take(i + keep) + new + kids(parent).skip(i + 1)),
    )
}

/// The type of a block in a description.
pub open spec fn kind_shown(t: Tree) -> Seq<char> {
    match kind(t) {
        Some(k) => k,
        None => "block"@,
    }
}

/// A table row replaced.
pub open spec fn row_replaced(
    d: Dialect,
    doc: Tree,
    path: Seq<nat>,
    find: Seq<char>,
    replace: Seq<char>,
) -> Applied {
    match built_rows(d, node_at(doc, path), replace, false) {
        Ok(rows) => Ok(
            (
                with_siblings(doc, path, 0, rows),
                Change {
                    description: "replace_text: table row at "@ + pointer(path),
                    before: find,
                    after: rows_shown(d, rows),
                },
            ),
        ),
        Err(f) => Err(f),
    }
}

/// A span inside a block replaced.
pub open spec fn span_replaced(
    d: Dialect,
    doc: Tree,
    path: Seq<nat>,
    at: int,
    find: Seq<char>,
    replace: Seq<char>,
) -> Applied {
    let block = node_at(doc, path);
    match spliced(d, block, at, find, replace) {
        Ok(new) => Ok(
            (
                set_at(doc, path, new),
                Change {
                    description: "replace_text: "@ + kind_shown(new) + " at "@ + pointer(path),
                    before: (d.inline)(kids(block)),
                    after: (d.inline)(kids(new)),
                },
            ),
        ),
        Err(f) => Err(f),
    }
}

/// The one match of `find` replaced.
pub open spec fn text_replaced(d: Dialect, doc: Tree, find: Seq<char>, replace: Seq<char>) -> Applied {
    let hits = text_hits(d, doc, find);
    if find.len() == 0 {
        Err(Failure::EmptyFind)
    } else if hits.len() != 1 {
        Err(Failure::FindMatches { count: hits.len(), find })
    } else {
        match hits[0].1 {
            Some(at) => span_replaced(d, doc, hits[0].0, at, find, replace),
            None => row_replaced(d, doc, hits[0].0, find, replace),
        }
    }
}

/// The occurrences of `anchor` in the first `n` blocks, each as the number of its block.
pub open spec fn block_hits(d: Dialect, blocks: Seq<Tree>, anchor: Seq<char>, n: nat) -> Seq<int>
    decreases n,
{
    if n == 0 {
        Seq::empty()
    } else {
        block_hits(d, blocks, anchor, (n - 1) as nat) + offsets(
            (d.blocks)(seq![blocks[n - 1]]),
            anchor,
        ).map_values(|at: int| n - 1)
    }
}

/// How a position reads.
pub open spec fn position_shown(position: InsertPosition) -> Seq<char> {
    match position {
        InsertPosition::After => "after"@,
        InsertPosition::Before => "before"@,
    }
}

/// Blocks inserted next to the one that contains `anchor`.
pub open spec fn blocks_inserted(
    d: Dialect,
    doc: Tree,
    anchor: Seq<char>,
    position: InsertPosition,
    markdown: Seq<char>,
) -> Applied {
    let hits = block_hits(d, kids(doc), anchor, kids(doc).len());
    let blocks = kids((d.parse)(markdown));
    if anchor.len() == 0 {
        Err(Failure::EmptyAnchor)
    } else if hits.len() != 1 {
        Err(Failure::AnchorInBlocks { count: hits.len(), anchor })
    } else if blocks.len() == 0 {
        Err(Failure::NoBlocks)
    } else {
        let index = if position == InsertPosition::After {
            hits[0] + 1
        } else {
            hits[0]
        };
        Ok(
            (
                with_kids(doc, kids(doc).take(index) + blocks + kids(doc).skip(index)),
                Change {
                    description: "insert_blocks: "@ + position_shown(position)
                        + " block /content/"@ + decimal(hits[0] as nat) + " "@ + preview_text(
                        (d.blocks)(seq![kids(doc)[hits[0]]]),
                    ),
                    before: Seq::empty(),
                    after: (d.blocks)(blocks),
                },
            ),
        )
    }
}

/// The occurrences of `anchor` in a table row, each as the path of the row.
pub open spec fn anchors_at(d: Dialect, place: (Seq<nat>, Tree), anchor: Seq<char>) -> Seq<
    Seq<nat>,
> {
    if kind(place.1) == Some("tableRow"@) {
        offsets(row_shown(d, place.1), anchor).map_values(|at: int| place.0)
    } else {
        Seq::empty()
    }
}

/// The occurrences of `anchor` in the table rows among the first `n` nodes.
pub open spec fn anchors_among(
    d: Dialect,
    nodes: Seq<(Seq<nat>, Tree)>,
    anchor: Seq<char>,
    n: nat,
) -> Seq<Seq<nat>>
    decreases n,
{
    if n == 0 {
        Seq::empty()
    } else {
        anchors_among(d, nodes, anchor, (n - 1) as nat) + anchors_at(d, nodes[n - 1], anchor)
    }
}

/// The occurrences of `anchor` in the table rows of a document.
pub open spec fn row_hits(d: Dialect, doc: Tree, anchor: Seq<char>) -> Seq<Seq<nat>> {
    let nodes = visited(doc, Seq::empty());
    anchors_among(d, nodes, anchor, nodes.len())
}

/// Rows inserted after the one that contains `anchor`.
pub open spec fn rows_appended(d: Dialect, doc: Tree, anchor: Seq<char>, row: Seq<char>) -> Applied {
    let hits = row_hits(d, doc, anchor);
    if anchor.len() == 0 {
        Err(Failure::EmptyAnchor)
    } else if hits.len() != 1 {
        Err(Failure::AnchorInRows { count: hits.len(), anchor })
    } else {
        let template = node_at(doc, hits[0]);
        match built_rows(d, template, row, true) {
            Ok(rows) => Ok(
                (
                    with_siblings(doc, hits[0], 1, rows),
                    Change {
                        description: "append_table_row: after row "@ + pointer(hits[0]) + " "@
                            + preview_text(row_shown(d, template)),
                        before: Seq::empty(),
                        after: rows_shown(d, rows),
                    },
                ),
            ),
            Err(f) => Err(f),
        }
    }
}

/// What an operation makes of a document.
pub open spec fn operation_result(d: Dialect, doc: Tree, operation: EditOperation) -> Applied {
    match operation {
        EditOperation::ReplaceText { find, replace } => text_replaced(d, doc, find@, replace@),
        EditOperation::InsertBlocks { anchor, position, markdown } => blocks_inserted(
            d,
            doc,
            anchor@,
            position,
            markdown@,
        ),
        EditOperation::AppendTableRow { anchor, row } => rows_appended(d, doc, anchor@, row@),
    }
}

/// An operation's result as mathematics.
pub open spec fn applied_view(r: Result<(Json, EditChange), OperationError>) -> Applied {
    match r {
        Ok((doc, change)) => Ok((doc@, change@)),
        Err(f) => Err(f@),
    }
}

/// Every match lies at a node of the document: a row if it has no offset, and a block whose
/// Markdown has `find` at the offset if it has one.
pub open spec fn is_hit(d: Dialect, doc: Tree, find: Seq<char>, hit: Hit) -> bool {
    &&& has_path(doc, hit.0)
    &&& match hit.1 {
        Some(at) => {
            &&& is_textblock(node_at(doc, hit.0))
            &&& offsets((d.inline)(kids(node_at(doc, hit.0))), find).contains(at)
        },
        None => {
            &&& kind(node_at(doc, hit.0)) == Some("tableRow"@)
            &&& row_shown(d, node_at(doc, hit.0)) == find
        },
    }
}

/// What `text_hits` lists are matches.
pub proof fn lemma_text_hits(d: Dialect, doc: Tree, find: Seq<char>, n: nat)
    requires
        n <= visited(doc, Seq::empty()).len(),
    ensures
        forall|j: int|
            0 <= j < hits_among(d, visited(doc, Seq::empty()), find, n).len() ==> is_hit(
                d,
                doc,
                find,
                #[trigger] hits_among(d, visited(doc, Seq::empty()), find, n)[j],
            ),
    decreases n,
{
    let nodes = visited(doc, Seq::empty());
    if n > 0 {
        lemma_text_hits(d, doc, find, (n - 1) as nat);
        lemma_visited(doc, doc, Seq::empty());
        let before = hits_among(d, nodes, find, (n - 1) as nat);
        let new = hits_at(d, nodes[n - 1], find);
        let now = hits_among(d, nodes, find, n);
        assert forall|j: int| 0 <= j < now.len() implies is_hit(d, doc, find, #[trigger] now[j]) by {
            if j < before.len() {
                assert(now[j] == before[j]);
            } else {
                assert(now[j] == new[j - before.len()]);
                let place = nodes[n - 1];
                assert(has_path(doc, place.0) && node_at(doc, place.0) == place.1);
                if is_textblock(place.1) {
                    let found = offsets((d.inline)(kids(place.1)), find);
                    assert(found.contains(found[j - before.len()]));
                }
            }
        }
    }
}

/// What `row_hits` lists are table rows of the document.
pub proof fn lemma_row_hits(d: Dialect, doc: Tree, anchor: Seq<char>, n: nat)
    requires
        n <= visited(doc, Seq::empty()).len(),
    ensures
        forall|j: int|
            0 <= j < anchors_among(d, visited(doc, Seq::empty()), anchor, n).len() ==> has_path(
                doc,
                #[trigger] anchors_among(d, visited(doc, Seq::empty()), anchor, n)[j],
            ) && kind(
                node_at(doc, anchors_among(d, visited(doc, Seq::empty()), anchor, n)[j]),
            ) == Some("tableRow"@),
    decreases n,
{
    let nodes = visited(doc, Seq::empty());
    if n > 0 {
        lemma_row_hits(d, doc, anchor, (n - 1) as nat);
        lemma_visited(doc, doc, Seq::empty());
        let before = anchors_among(d, nodes, anchor, (n - 1) as nat);
        let now = anchors_among(d, nodes, anchor, n);
        assert forall|j: int| 0 <= j < now.len() implies has_path(doc, #[trigger] now[j]) && kind(
            node_at(doc, now[j]),
        ) == Some("tableRow"@) by {
            if j < before.len() {
                assert(now[j] == before[j]);
            } else {
                let place = nodes[n - 1];
                assert(now[j] == anchors_at(d, place, anchor)[j - before.len()]);
                assert(has_path(doc, place.0) && node_at(doc, place.0) == place.1);
            }
        }
    }
}

/// The types of a document, of a table row and of a block of text differ.
pub proof fn lemma_kinds_differ()
    ensures
        "doc"@ != "tableRow"@,
        "doc"@ != "paragraph"@,
        "doc"@ != "heading"@,
        "doc"@ != "codeBlock"@,
        "doc"@ != "detailsSummary"@,
        "content"@ != "type"@,
        "content"@ != "marks"@,
        "content"@ != "attrs"@,
        "text"@ != "type"@,
        "marks"@ != "type"@,
{
    reveal_strlit("doc");
    reveal_strlit("tableRow");
    reveal_strlit("paragraph");
    reveal_strlit("heading");
    reveal_strlit("codeBlock");
    reveal_strlit("detailsSummary");
    reveal_strlit("content");
    reveal_strlit("type");
    reveal_strlit("marks");
    reveal_strlit("attrs");
    reveal_strlit("text");
    assert("doc"@.len() == 3);
    assert("tableRow"@.len() == 8);
    assert("paragraph"@.len() == 9);
    assert("heading"@.len() == 7);
    assert("codeBlock"@.len() == 9);
    assert("detailsSummary"@.len() == 14);
    assert("content"@[0] != "type"@[0]);
    assert("content"@[0] != "marks"@[0]);
    assert("content"@[0] != "attrs"@[0]);
    assert("text"@[1] == 'e' && "type"@[1] == 'y');
    assert("marks"@[0] != "type"@[0]);
}

/// A path to the parent leads somewhere, and the last step is the number of one of its children.
pub proof fn lemma_parent(t: Tree, path: Seq<nat>)
    requires
        has_path(t, path),
        path.len() > 0,
    ensures
        has_path(t, path.drop_last()),
        path.last() < kids(node_at(t, path.drop_last())).len(),
        node_at(t, path) == kids(node_at(t, path.drop_last()))[path.last() as int],
{
    lemma_path_push(t, path.drop_last(), path.last());
    assert(path.drop_last().push(path.last()) =~= path);
}

/// A match of the exec side.
struct Found {
    path: Vec<usize>,
    at: Option<usize>,
}

impl Found {
    spec fn view(&self) -> Hit {
        (
            steps(self.path@),
            match self.at {
                Some(at) => Some(at as int),
                None => None,
            },
        )
    }
}

spec fn found_hits(v: Seq<Found>) -> Seq<Hit> {
    v.map_values(|f: Found| f@)
}

/// Replace the node at `path` with `nodes`, keeping it when `keep` is true (insert after).
fn splice_sibling(doc: &Json, path: &Vec<usize>, keep: bool, nodes: Vec<Json>) -> (r: Json)
    requires
        has_path(doc@, steps(path@)),
        path@.len() > 0,
    ensures
        r@ == with_siblings(
            doc@,
            steps(path@),
            if keep {
                1
            } else {
                0
            },
            trees(nodes@),
        ),
{
    let mut up: Vec<usize> = path.clone();
    let i: usize = path[path.len() - 1];
    up.pop();
    proof {
        lemma_parent(doc@, steps(path@));
        assert(steps(up@) =~= steps(path@).drop_last());
    }
    let parent: &Json = find_node(doc, &up);
    let old: &[Json] = children(parent);
    let count: usize = old.len();
    assert(trees(old@).len() == count);
    let mut new: Vec<Json> = nodes;
    let ghost added = trees(new@);
    let mut content: Vec<Json> = Vec::new();
    let first: usize = if keep {
        i + 1
    } else {
        i
    };
    append_copies(&mut content, old, 0, first);
    add_all(&mut content, &mut new);
    append_copies(&mut content, old, i + 1, count);
    assert(trees(content@) =~= kids(parent@).take(first as int) + added + kids(parent@).skip(
        i + 1,
    ));
    let edited: Json = replace_children(parent, content);
    replace_node(doc, &up, edited)
}

/// An occurrence ends within the text.
proof fn lemma_occurrence_ends(s: Seq<char>, n: Seq<char>, at: int)
    requires
        offsets(s, n).contains(at),
    ensures
        0 <= at,
        at + width(n) <= width(s),
{
    lemma_offsets_before(s, n, s.len());
    let k = choose|k: int|
        0 <= k < s.len() && #[trigger] occurs_at(s, n, k) && width(s.take(k)) == at;
    lemma_width_take(s, k, k + n.len());
    lemma_width_take(s, k + n.len(), s.len() as int);
    assert(s.take(s.len() as int) =~= s);
}

/// A field that is not the children stays when the children change.
pub proof fn lemma_with_kids(t: Tree, content: Seq<Tree>)
    requires
        t.takes_fields(),
    ensures
        kids(with_kids(t, content)) == content,
        kind(with_kids(t, content)) == kind(t),
        marks(with_kids(t, content)) == marks(t),
        forall|key: Seq<char>|
            key != "content"@ ==> #[trigger] with_kids(t, content).field(key) == t.field(key),
{
    lemma_kinds_differ();
}

/// A change below a document leaves a document.
pub proof fn lemma_set_below(t: Tree, path: Seq<nat>, new: Tree)
    requires
        has_path(t, path),
        path.len() > 0,
    ensures
        kind(set_at(t, path, new)) == kind(t),
{
    let i = path[0] as int;
    lemma_with_kids(t, kids(t).update(i, set_at(kids(t)[i], path.skip(1), new)));
}

/// A document stays a document.
pub proof fn lemma_doc_stays(d: Dialect, doc: Tree, operation: EditOperation)
    requires
        is_doc(doc),
    ensures
        operation_result(d, doc, operation) matches Ok((after, change)) ==> is_doc(after),
{
    lemma_kinds_differ();
    match operation {
        EditOperation::ReplaceText { find, replace } => {
            let nodes = visited(doc, Seq::empty());
            let hits = text_hits(d, doc, find@);
            lemma_text_hits(d, doc, find@, nodes.len());
            if hits.len() == 1 {
                let path = hits[0].0;
                assert(is_hit(d, doc, find@, hits[0]));
                lemma_parent(doc, path);
                match hits[0].1 {
                    Some(at) => {
                        if let Ok(new) = spliced(d, node_at(doc, path), at, find@, replace@) {
                            lemma_set_below(doc, path, new);
                        }
                    },
                    None => {
                        if let Ok(rows) = built_rows(d, node_at(doc, path), replace@, false) {
                            lemma_siblings_below(doc, path, 0, rows);
                        }
                    },
                }
            }
        },
        EditOperation::InsertBlocks { anchor, position, markdown } => {
            let hits = block_hits(d, kids(doc), anchor@, kids(doc).len());
            let blocks = kids((d.parse)(markdown@));
            let index = if position == InsertPosition::After {
                hits[0] + 1
            } else {
                hits[0]
            };
            lemma_with_kids(doc, kids(doc).take(index) + blocks + kids(doc).skip(index));
        },
        EditOperation::AppendTableRow { anchor, row } => {
            let nodes = visited(doc, Seq::empty());
            let hits = row_hits(d, doc, anchor@);
            lemma_row_hits(d, doc, anchor@, nodes.len());
            if hits.len() == 1 {
                assert(has_path(doc, hits[0]));
                if let Ok(rows) = built_rows(d, node_at(doc, hits[0]), row@, true) {
                    lemma_siblings_below(doc, hits[0], 1, rows);
                }
            }
        },
    }
}

/// New siblings below a document leave a document.
proof fn lemma_siblings_below(doc: Tree, path: Seq<nat>, keep: nat, new: Seq<Tree>)
    requires
        has_path(doc, path),
        path.len() > 0,
    ensures
        kind(with_siblings(doc, path, keep, new)) == kind(doc),
{
    lemma_parent(doc, path);
    let up = path.drop_last();
    let parent = node_at(doc, up);
    let i = path.last() as int;
    let content = kids(parent).take(i + keep) + new + kids(parent).skip(i + 1);
    lemma_with_kids(parent, content);
    if up.len() > 0 {
        lemma_set_below(doc, up, with_kids(parent, content));
    }
}

/// Adds a match for each offset.
fn add_hits(hits: &mut Vec<Found>, path: &Vec<usize>, found: &Vec<usize>)
    ensures
        found_hits(final(hits)@) == found_hits(old(hits)@) + found@.map_values(
            |at: usize| at as int,
        ).map_values(|at: int| (steps(path@), Some(at))),
{
    let ghost before = found_hits(hits@);
    let ghost new = found@.map_values(|at: usize| at as int).map_values(
        |at: int| (steps(path@), Some(at)),
    );
    let mut i: usize = 0;
    assert(before + new.take(0) =~= before);
    while i < found.len()
        invariant
            i <= found@.len(),
            new == found@.map_values(|at: usize| at as int).map_values(
                |at: int| (steps(path@), Some(at)),
            ),
            found_hits(hits@) == before + new.take(i as int),
        decreases found@.len() - i,
    {
        let ghost now = found_hits(hits@);
        hits.push(Found { path: path.clone(), at: Some(found[i]) });
        assert(found_hits(hits@) =~= now.push(new[i as int]));
        assert(found_hits(hits@) =~= before + new.take(i + 1));
        i = i + 1;
    }
    assert(new.take(new.len() as int) =~= new);
}

/// Adds a path as often as there are offsets.
fn add_paths(hits: &mut Vec<Vec<usize>>, path: &Vec<usize>, found: &Vec<usize>)
    ensures
        all_steps(final(hits)@) == all_steps(old(hits)@) + found@.map_values(
            |at: usize| at as int,
        ).map_values(|at: int| steps(path@)),
{
    let ghost before = all_steps(hits@);
    let ghost new = found@.map_values(|at: usize| at as int).map_values(|at: int| steps(path@));
    let mut i: usize = 0;
    assert(before + new.take(0) =~= before);
    while i < found.len()
        invariant
            i <= found@.len(),
            new == found@.map_values(|at: usize| at as int).map_values(|at: int| steps(path@)),
            all_steps(hits@) == before + new.take(i as int),
        decreases found@.len() - i,
    {
        let ghost now = all_steps(hits@);
        hits.push(path.clone());
        assert(all_steps(hits@) =~= now.push(new[i as int]));
        assert(all_steps(hits@) =~= before + new.take(i + 1));
        i = i + 1;
    }
    assert(new.take(new.len() as int) =~= new);
}

spec fn all_steps(v: Seq<Vec<usize>>) -> Seq<Seq<nat>> {
    v.map_values(|p: Vec<usize>| steps(p@))
}

/// Whether a node's children are inline content.
fn holds_inline(node: &Json) -> (r: bool)
    ensures
        r == is_textblock(node@),
{
    is_a(node, "paragraph") || is_a(node, "heading") || is_a(node, "codeBlock") || is_a(
        node,
        "detailsSummary",
    )
}

impl<I: Fn(&[Json]) -> String, B: Fn(&[Json]) -> String, P: Fn(&str) -> Json> Markdown<I, B, P> {
    /// The matches of `find` in a document.
    fn find_text(&self, doc: &Json, find: &str) -> (r: Vec<Found>)
        requires
            self.well_defined(),
        ensures
            found_hits(r@) == text_hits(self.dialect(), doc@, find@),
    {
        let ghost d = self.dialect();
        let nodes: Vec<Place<'_>> = walk(doc);
        let ghost all = places(nodes@);
        let mut hits: Vec<Found> = Vec::new();
        let mut i: usize = 0;
        assert(found_hits(hits@) =~= hits_among(d, all, find@, 0));
        while i < nodes.len()
            invariant
                i <= nodes@.len(),
                self.well_defined(),
                d == self.dialect(),
                all == places(nodes@),
                found_hits(hits@) == hits_among(d, all, find@, i as nat),
            decreases nodes@.len() - i,
        {
            let ghost before = found_hits(hits@);
            let path: &Vec<usize> = &nodes[i].0;
            let node: &Json = nodes[i].1;
            assert(all[i as int] == (steps(path@), node@));
            if holds_inline(node) {
                let markdown: String = self.extract_text(children(node));
                let found: Vec<usize> = find_all(markdown.as_str(), find);
                add_hits(&mut hits, path, &found);
            } else if is_a(node, "tableRow") && same_text(self.row_markdown(node).as_str(), find) {
                hits.push(Found { path: path.clone(), at: None });
                assert(found_hits(hits@) =~= before.push((steps(path@), None::<int>)));
                assert(found_hits(hits@) =~= before + hits_at(d, all[i as int], find@));
            } else {
                assert(before + hits_at(d, all[i as int], find@) =~= before);
            }
            i = i + 1;
        }
        hits
    }

    /// Replace the one match of `find`.
    pub fn replace_text(&self, doc: &Json, find: &str, replace: &str) -> (r: Result<
        (Json, EditChange),
        OperationError,
    >)
        requires
            self.well_defined(),
            is_doc(doc@),
        ensures
            applied_view(r) == text_replaced(self.dialect(), doc@, find@, replace@),
    {
        let ghost d = self.dialect();
        if find.is_empty() {
            return Err(Failure::EmptyFind);
        }
        let mut hits: Vec<Found> = self.find_text(doc, find);
        let ghost found = text_hits(d, doc@, find@);
        assert(found.len() == hits@.len());
        if hits.len() != 1 {
            return Err(Failure::FindMatches { count: hits.len(), find: find.to_owned() });
        }
        proof {
            lemma_kinds_differ();
            lemma_text_hits(d, doc@, find@, visited(doc@, Seq::empty()).len());
            assert(found[0] == hits@[0]@);
            assert(is_hit(d, doc@, find@, found[0]));
        }
        let hit: &Found = &hits[0];
        let path: &Vec<usize> = &hit.path;
        let node: &Json = find_node(doc, path);
        match hit.at {
            None => {
                let rows: Vec<Json> = match self.build_rows(node, replace, false) {
                    Ok(rows) => rows,
                    Err(f) => {
                        return Err(f);
                    },
                };
                let after: String = self.rows_markdown(&rows);
                let edited: Json = splice_sibling(doc, path, false, rows);
                Ok(
                    (
                        edited,
                        EditChange {
                            description: "replace_text: table row at ".to_owned().concat(
                                pointer_text(path).as_str(),
                            ),
                            before: find.to_owned(),
                            after,
                        },
                    ),
                )
            },
            Some(at) => {
                let before: String = self.extract_text(children(node));
                let room: usize = crate::text::byte_len(before.as_str());
                proof {
                    lemma_occurrence_ends(before@, find@, at as int);
                    assert(at + width(find@) <= room);
                }
                let block: Json = match self.splice_inline(node, at, find, replace) {
                    Ok(block) => block,
                    Err(f) => {
                        return Err(f);
                    },
                };
                let kind: String = match node_type(&block) {
                    Some(kind) => kind.to_owned(),
                    None => "block".to_owned(),
                };
                let after: String = self.extract_text(children(&block));
                let edited: Json = replace_node(doc, path, block);
                Ok(
                    (
                        edited,
                        EditChange {
                            description: "replace_text: ".to_owned().concat(kind.as_str()).concat(
                                " at ",
                            ).concat(pointer_text(path).as_str()),
                            before,
                            after,
                        },
                    ),
                )
            },
        }
    }

    /// The occurrences of `anchor` in top-level blocks, each as the number of its block.
    fn find_blocks(&self, blocks: &[Json], anchor: &str) -> (r: Vec<usize>)
        requires
            self.well_defined(),
        ensures
            r@.map_values(|i: usize| i as int) == block_hits(
                self.dialect(),
                trees(blocks@),
                anchor@,
                blocks@.len(),
            ),
            forall|j: int| 0 <= j < r@.len() ==> #[trigger] r@[j] < blocks@.len(),
    {
        let ghost d = self.dialect();
        let ghost all = trees(blocks@);
        let mut hits: Vec<usize> = Vec::new();
        let mut i: usize = 0;
        assert(hits@.map_values(|i: usize| i as int) =~= block_hits(d, all, anchor@, 0));
        while i < blocks.len()
            invariant
                i <= blocks@.len(),
                self.well_defined(),
                d == self.dialect(),
                all == trees(blocks@),
                hits@.map_values(|i: usize| i as int) == block_hits(d, all, anchor@, i as nat),
                forall|j: int| 0 <= j < hits@.len() ==> #[trigger] hits@[j] < blocks@.len(),
            decreases blocks@.len() - i,
        {
            let ghost before = hits@.map_values(|i: usize| i as int);
            let markdown: String = self.convert_nodes(std::slice::from_ref(&blocks[i]));
            assert(trees(seq![blocks@[i as int]]) =~= seq![all[i as int]]);
            let found: Vec<usize> = find_all(markdown.as_str(), anchor);
            let ghost new = offsets(markdown@, anchor@).map_values(|at: int| i as int);
            assert(found@.map_values(|at: usize| at as int).len() == found@.len());
            let mut j: usize = 0;
            assert(before + new.take(0) =~= before);
            while j < found.len()
                invariant
                    j <= found@.len(),
                    i < blocks@.len(),
                    new.len() == found@.len(),
                    forall|k: int| 0 <= k < new.len() ==> new[k] == i,
                    hits@.map_values(|i: usize| i as int) == before + new.take(j as int),
                    forall|j: int| 0 <= j < hits@.len() ==> #[trigger] hits@[j] < blocks@.len(),
                decreases found@.len() - j,
            {
                let ghost now = hits@.map_values(|i: usize| i as int);
                hits.push(i);
                assert(hits@.map_values(|i: usize| i as int) =~= now.push(i as int));
                assert(new.take(j + 1) =~= new.take(j as int).push(new[j as int]));
                assert(hits@.map_values(|i: usize| i as int) =~= before + new.take(j + 1));
                j = j + 1;
            }
            assert(new.take(new.len() as int) =~= new);
            assert(offsets((d.blocks)(seq![all[i + 1 - 1]]), anchor@).map_values(
                |at: int| i + 1 - 1,
            ) =~= new);
            i = i + 1;
        }
        hits
    }

    /// Insert Markdown blocks next to the top-level block that contains `anchor`.
    pub fn insert_blocks(
        &self,
        doc: &Json,
        anchor: &str,
        position: InsertPosition,
        markdown: &str,
    ) -> (r: Result<(Json, EditChange), OperationError>)
        requires
            self.well_defined(),
            is_doc(doc@),
        ensures
            applied_view(r) == blocks_inserted(
                self.dialect(),
                doc@,
                anchor@,
                position,
                markdown@,
            ),
    {
        let ghost d = self.dialect();
        if anchor.is_empty() {
            return Err(Failure::EmptyAnchor);
        }
        let old: &[Json] = children(doc);
        let count: usize = old.len();
        assert(trees(old@).len() == count);
        let hits: Vec<usize> = self.find_blocks(old, anchor);
        let ghost found = block_hits(d, kids(doc@), anchor@, kids(doc@).len());
        assert(found.len() == hits@.len());
        if hits.len() != 1 {
            return Err(Failure::AnchorInBlocks { count: hits.len(), anchor: anchor.to_owned() });
        }
        assert(found[0] == hits@[0]);
        let parsed: Json = self.markdown_to_prosemirror(markdown);
        let blocks: &[Json] = children(&parsed);
        assert(trees(blocks@).len() == blocks@.len());
        if blocks.len() == 0 {
            return Err(Failure::NoBlocks);
        }
        let hit: usize = hits[0];
        let after_hit: bool = position == InsertPosition::After;
        let index: usize = if after_hit {
            hit + 1
        } else {
            hit
        };
        let anchor_block: String = self.convert_nodes(std::slice::from_ref(&old[hit]));
        assert(trees(seq![old@[hit as int]]) =~= seq![kids(doc@)[hit as int]]);
        let after: String = self.convert_nodes(blocks);
        let mut content: Vec<Json> = Vec::new();
        append_copies(&mut content, old, 0, index);
        append_copies(&mut content, blocks, 0, blocks.len());
        append_copies(&mut content, old, index, count);
        assert(trees(content@) =~= kids(doc@).take(index as int) + trees(blocks@) + kids(doc@).skip(
            index as int,
        ));
        let word: &str = if after_hit {
            "after"
        } else {
            "before"
        };
        Ok(
            (
                replace_children(doc, content),
                EditChange {
                    description: "insert_blocks: ".to_owned().concat(word).concat(
                        " block /content/",
                    ).concat(number_text(hit).as_str()).concat(" ").concat(
                        preview(anchor_block.as_str()).as_str(),
                    ),
                    before: String::new(),
                    after,
                },
            ),
        )
    }

    /// The occurrences of `anchor` in table rows, each as the path of the row.
    fn find_rows(&self, doc: &Json, anchor: &str) -> (r: Vec<Vec<usize>>)
        requires
            self.well_defined(),
        ensures
            all_steps(r@) == row_hits(self.dialect(), doc@, anchor@),
    {
        let ghost d = self.dialect();
        let nodes: Vec<Place<'_>> = walk(doc);
        let ghost all = places(nodes@);
        let mut hits: Vec<Vec<usize>> = Vec::new();
        let mut i: usize = 0;
        assert(all_steps(hits@) =~= anchors_among(d, all, anchor@, 0));
        while i < nodes.len()
            invariant
                i <= nodes@.len(),
                self.well_defined(),
                d == self.dialect(),
                all == places(nodes@),
                all_steps(hits@) == anchors_among(d, all, anchor@, i as nat),
            decreases nodes@.len() - i,
        {
            let ghost before = all_steps(hits@);
            let path: &Vec<usize> = &nodes[i].0;
            let node: &Json = nodes[i].1;
            assert(all[i as int] == (steps(path@), node@));
            if is_a(node, "tableRow") {
                let markdown: String = self.row_markdown(node);
                let found: Vec<usize> = find_all(markdown.as_str(), anchor);
                add_paths(&mut hits, path, &found);
            } else {
                assert(before + anchors_at(d, all[i as int], anchor@) =~= before);
            }
            i = i + 1;
        }
        hits
    }

    /// Insert rows after the table row that contains `anchor`.
    pub fn append_table_row(&self, doc: &Json, anchor: &str, row: &str) -> (r: Result<
        (Json, EditChange),
        OperationError,
    >)
        requires
            self.well_defined(),
            is_doc(doc@),
        ensures
            applied_view(r) == rows_appended(self.dialect(), doc@, anchor@, row@),
    {
        let ghost d = self.dialect();
        if anchor.is_empty() {
            return Err(Failure::EmptyAnchor);
        }
        let hits: Vec<Vec<usize>> = self.find_rows(doc, anchor);
        let ghost found = row_hits(d, doc@, anchor@);
        assert(found.len() == hits@.len());
        if hits.len() != 1 {
            return Err(Failure::AnchorInRows { count: hits.len(), anchor: anchor.to_owned() });
        }
        proof {
            lemma_kinds_differ();
            lemma_row_hits(d, doc@, anchor@, visited(doc@, Seq::empty()).len());
            assert(found[0] == steps(hits@[0]@));
            assert(has_path(doc@, found[0]));
        }
        let path: &Vec<usize> = &hits[0];
        let template: &Json = find_node(doc, path);
        let rows: Vec<Json> = match self.build_rows(template, row, true) {
            Ok(rows) => rows,
            Err(f) => {
                return Err(f);
            },
        };
        let after: String = self.rows_markdown(&rows);
        let shown: String = self.row_markdown(template);
        let edited: Json = splice_sibling(doc, path, true, rows);
        Ok(
            (
                edited,
                EditChange {
                    description: "append_table_row: after row ".to_owned().concat(
                        pointer_text(path).as_str(),
                    ).concat(" ").concat(preview(shown.as_str()).as_str()),
                    before: String::new(),
                    after,
                },
            ),
        )
    }

    /// Apply one operation.
    pub fn apply_operation(&self, doc: &Json, operation: &EditOperation) -> (r: Result<
        (Json, EditChange),
        OperationError,
    >)
        requires
            self.well_defined(),
            is_doc(doc@),
        ensures
            applied_view(r) == operation_result(self.dialect(), doc@, *operation),
    {
        match operation {
            EditOperation::ReplaceText { find, replace } => self.replace_text(
                doc,
                find.as_str(),
                replace.as_str(),
            ),
            EditOperation::InsertBlocks { anchor, position, markdown } => self.insert_blocks(
                doc,
                anchor.as_str(),
                *position,
                markdown.as_str(),
            ),
            EditOperation::AppendTableRow { anchor, row } => self.append_table_row(
                doc,
                anchor.as_str(),
                row.as_str(),
            ),
        }
    }
}

} // verus!
