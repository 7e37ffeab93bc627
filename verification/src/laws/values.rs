//! What is written into a value is what is read from it.

use vstd::prelude::*;

use crate::comments::{anchored, comment_id, comment_set};
use crate::json::{lemma_array, trees, Fields, Json, Number, Tree};
use crate::laws::threads::{anchored_at, law_anchored_somewhere};
use crate::marks::{is_comment, visible};
use crate::node::{has_path, kids, kind, marks, node_at, text_node, with_kids};
use crate::operations::{is_doc, is_textblock};
use crate::rows::{content_of, empty_paragraph, is_cell, is_header_row};
use crate::spans::{is_text, text_of};

verus! {

/// A field that is set is read back, and no other field changes.
pub proof fn law_a_set_field_is_read_back(
    m: Map<Seq<char>, Tree>,
    key: Seq<char>,
    value: Tree,
    other: Seq<char>,
)
    ensures
        Tree::Object(m).with(key, value) == Tree::Object(m.insert(key, value)),
        Tree::Null.with(key, value) == Tree::Object(Map::empty().insert(key, value)),
        Tree::Object(m.insert(key, value)).field(key) == Some(value),
        Tree::Object(m.remove(key)).field(key) is None,
        other != key ==> Tree::Object(m.insert(key, value)).field(other) == Tree::Object(m).field(
            other,
        ),
        Tree::Object(m.insert(key, Tree::String(other))).text_field(key) == Some(other),
        !(value is String) ==> Tree::Object(m.insert(key, value)).text_field(key) is None,
        Tree::Object(m.remove(key)).text_field(key) is None,
{
}

/// The children of a node are the array under `content`. A node without such an array has none.
pub proof fn law_children_are_the_content(
    m: Map<Seq<char>, Tree>,
    nodes: Seq<Tree>,
    other: Tree,
)
    ensures
        kids(Tree::Object(m.insert("content"@, Tree::Array(nodes)))) == nodes,
        kids(Tree::Object(m.remove("content"@))) == Seq::<Tree>::empty(),
        !(other is Array) ==> kids(Tree::Object(m.insert("content"@, other))) == Seq::<
            Tree,
        >::empty(),
        !(other is Object) ==> kids(other) == Seq::<Tree>::empty(),
        content_of(Tree::Object(m.insert("content"@, other))) == other,
        content_of(Tree::Object(m.remove("content"@))) == Tree::Null,
        with_kids(Tree::Object(m), nodes) == Tree::Object(
            m.insert("content"@, Tree::Array(nodes)),
        ),
{
}

/// The marks of a node are the array under `marks`. A node without such an array has none.
pub proof fn law_marks_are_the_marks_array(
    m: Map<Seq<char>, Tree>,
    list: Seq<Tree>,
    other: Tree,
)
    ensures
        marks(Tree::Object(m.insert("marks"@, Tree::Array(list)))) == list,
        marks(Tree::Object(m.remove("marks"@))) == Seq::<Tree>::empty(),
        !(other is Array) ==> marks(Tree::Object(m.insert("marks"@, other))) == Seq::<
            Tree,
        >::empty(),
        !(other is Object) ==> marks(other) == Seq::<Tree>::empty(),
{
}

/// The type of a node or of a mark is the string under `type`.
pub proof fn law_the_type_is_the_type_string(
    m: Map<Seq<char>, Tree>,
    name: Seq<char>,
    other: Tree,
)
    ensures
        kind(Tree::Object(m.insert("type"@, Tree::String(name)))) == Some(name),
        kind(Tree::Object(m.remove("type"@))) is None,
        !(other is String) ==> kind(Tree::Object(m.insert("type"@, other))) is None,
        !(other is Object) ==> kind(other) is None,
{
}

/// A node by its type: documents, blocks of text, cells, text nodes and marks that show are
/// those of the types that say so, and no others.
pub proof fn law_types_say_what_a_node_is(m: Map<Seq<char>, Tree>, name: Seq<char>)
    ensures
        ({
            let t = Tree::Object(m.insert("type"@, Tree::String(name)));
            &&& is_doc(t) <==> name == "doc"@
            &&& is_textblock(t) <==> (name == "paragraph"@ || name == "heading"@ || name
                == "codeBlock"@ || name == "detailsSummary"@)
            &&& is_cell(t) <==> (name == "tableCell"@ || name == "tableHeader"@)
            &&& visible(t) <==> (name == "bold"@ || name == "italic"@ || name == "code"@ || name
                == "strike"@ || name == "link"@)
            &&& is_comment(t) <==> name == "comment"@
            &&& is_text(t) <==> name == "text"@ && t.field("text"@) matches Some(Tree::String(_))
        }),
        !is_doc(Tree::Object(m.remove("type"@))),
        !is_textblock(Tree::Object(m.remove("type"@))),
        !is_cell(Tree::Object(m.remove("type"@))),
        !visible(Tree::Object(m.remove("type"@))),
        !is_comment(Tree::Object(m.remove("type"@))),
        !is_text(Tree::Object(m.remove("type"@))),
{
}

/// The text of a text node is the string under `text`.
pub proof fn law_the_text_is_the_text_string(m: Map<Seq<char>, Tree>, text: Seq<char>)
    ensures
        text_of(Tree::Object(m.insert("text"@, Tree::String(text)))) == text,
{
}

/// A new text node has its type and its text, and nothing else.
pub proof fn law_a_new_text_node_is_bare(text: Seq<char>)
    ensures
        text_node(text) == Tree::Object(
            map!["type"@ => Tree::String("text"@), "text"@ => Tree::String(text)],
        ),
        is_text(text_node(text)),
        text_of(text_node(text)) == text,
        marks(text_node(text)).len() == 0,
        empty_paragraph() == Tree::Object(map!["type"@ => Tree::String("paragraph"@)]),
{
    crate::operations::lemma_kinds_differ();
    reveal_strlit("type");
    reveal_strlit("text");
    reveal_strlit("marks");
    assert("type"@.len() == 4 && "text"@.len() == 4 && "marks"@.len() == 5);
    assert(text_node(text)->Object_0 =~= map![
        "type"@ => Tree::String("text"@),
        "text"@ => Tree::String(text),
    ]);
    assert(empty_paragraph()->Object_0 =~= map!["type"@ => Tree::String("paragraph"@)]);
}

/// Every mark of type `comment` whose `attrs` hold a string `commentId` anchors that thread,
/// whatever else it holds, and no other mark anchors one.
pub proof fn law_a_comment_mark_anchors_its_thread(mark: Tree, id: Seq<char>)
    ensures
        comment_id(mark) == Some(id) <==> {
            &&& mark matches Tree::Object(m)
            &&& m.contains_key("type"@) && m["type"@] == Tree::String("comment"@)
            &&& m.contains_key("attrs"@)
            &&& m["attrs"@] matches Tree::Object(attrs)
            &&& attrs.contains_key("commentId"@) && attrs["commentId"@] == Tree::String(id)
        },
{
}

/// A comment mark with an id stays an anchor of its thread whatever other attributes and fields
/// are set on it.
pub proof fn law_other_attributes_do_not_detach(
    m: Map<Seq<char>, Tree>,
    attrs: Map<Seq<char>, Tree>,
    id: Seq<char>,
)
    ensures
        comment_id(
            Tree::Object(
                m.insert("type"@, Tree::String("comment"@)).insert(
                    "attrs"@,
                    Tree::Object(attrs.insert("commentId"@, Tree::String(id))),
                ),
            ),
        ) == Some(id),
{
    reveal_strlit("type");
    reveal_strlit("attrs");
    assert("type"@.len() == 4 && "attrs"@.len() == 5);
}

/// A path leads through the children, step by step.
pub proof fn law_a_path_leads_through_children(t: Tree, i: nat, rest: Seq<nat>)
    ensures
        has_path(t, Seq::empty()),
        node_at(t, Seq::empty()) == t,
        has_path(t, seq![i] + rest) <==> i < kids(t).len() && has_path(kids(t)[i as int], rest),
        i < kids(t).len() ==> node_at(t, seq![i] + rest) == node_at(kids(t)[i as int], rest),
{
    assert((seq![i] + rest).skip(1) =~= rest);
    assert((seq![i] + rest)[0] == i);
}

/// A thread is anchored in a tree exactly where a node of the tree, at whatever depth, carries a
/// mark of type `comment` with the id of the thread.
pub proof fn law_a_thread_is_anchored_by_marks(t: Tree, id: Seq<char>)
    ensures
        anchored(t, id) <==> exists|path: Seq<nat>, j: int|
            has_path(t, path) && 0 <= j < marks(node_at(t, path)).len() && comment_id(
                #[trigger] marks(node_at(t, path))[j],
            ) == Some(id),
        comment_set(t).contains(id) <==> anchored(t, id),
{
    law_anchored_somewhere(t, id);
    if anchored(t, id) {
        let path = choose|path: Seq<nat>| #[trigger] anchored_at(t, path, id);
        let ms = marks(node_at(t, path));
        let j = choose|j: int| 0 <= j < ms.len() && #[trigger] comment_id(ms[j]) == Some(id);
        assert(has_path(t, path) && comment_id(marks(node_at(t, path))[j]) == Some(id));
    }
    if exists|path: Seq<nat>, j: int|
        has_path(t, path) && 0 <= j < marks(node_at(t, path)).len() && comment_id(
            #[trigger] marks(node_at(t, path))[j],
        ) == Some(id) {
        let (path, j) = choose|path: Seq<nat>, j: int|
            has_path(t, path) && 0 <= j < marks(node_at(t, path)).len() && comment_id(
                #[trigger] marks(node_at(t, path))[j],
            ) == Some(id);
        assert(anchored_at(t, path, id));
    }
}

/// A row is a header row exactly where each of its children is a header cell.
pub proof fn law_a_header_row_has_header_cells(row: Tree)
    ensures
        is_header_row(row) <==> forall|i: int|
            0 <= i < kids(row).len() ==> #[trigger] kids(row)[i].text_field("type"@) == Some(
                "tableHeader"@,
            ),
{
    if is_header_row(row) {
        assert forall|i: int| 0 <= i < kids(row).len() implies #[trigger] kids(row)[i].text_field(
            "type"@,
        ) == Some("tableHeader"@) by {
            assert(kind(kids(row)[i]) == Some("tableHeader"@));
        }
    } else {
        let i = choose|i: int|
            0 <= i < kids(row).len() && kind(#[trigger] kids(row)[i]) != Some("tableHeader"@);
        assert(kids(row)[i].text_field("type"@) != Some("tableHeader"@));
    }
}

/// The mathematical value of a JSON value loses nothing but the order of keys and the sign of
/// zero.
pub proof fn law_values_are_seen_as_they_are(
    a: bool,
    s: String,
    n: Number,
    k: Number,
    v: Vec<Json>,
    f: Fields,
)
    ensures
        Json::Null@ == Tree::Null,
        Json::Bool(a)@ == Tree::Bool(a),
        Json::String(s)@ == Tree::String(s@),
        Json::Array(v)@ == Tree::Array(trees(v@)),
        trees(v@).len() == v@.len(),
        forall|i: int| 0 <= i < v@.len() ==> #[trigger] trees(v@)[i] == v@[i]@,
        Json::Object(f)@ == Tree::Object(f@),
        Json::Number(n)@ == Json::Number(k)@ <==> {
            ||| n == k
            ||| (n == Number::Float(0) && k == Number::Float(0x8000_0000_0000_0000))
            ||| (k == Number::Float(0) && n == Number::Float(0x8000_0000_0000_0000))
        },
{
    lemma_array(v);
}

} // verus!
