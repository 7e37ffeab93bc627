//! Rows that are appended at once come to the same as rows that are appended one by one.

use vstd::prelude::*;

use crate::failure::Failure;
use crate::json::Tree;
use crate::laws::locality::{
    apart, law_set_is_found, law_set_leaves_the_rest, lemma_parent_takes_fields, lemma_path_add,
};
use crate::laws::matches::{is_anchor_row, law_every_anchor_row_counts, lemma_paths_differ};
use crate::laws::rows::lemma_filter_all;
use crate::laws::threads::lemma_all_visited;
use crate::markdown::Dialect;
use crate::node::{
    has_path, kids, kind, lemma_path_push, lemma_visited, node_at, set_at, visited, with_kids,
};
use crate::operations::{
    anchors_among, anchors_at, is_doc, lemma_kinds_differ, lemma_parent, lemma_row_hits,
    lemma_with_kids, row_hits, rows_appended, with_siblings,
};
use crate::rows::{
    built_cells, built_row, built_rows, built_rows_of, parsed_row, row_lines, row_shown,
};
use crate::spacing::{is_blank, lemma_line_end_is, lines};
use crate::text::offsets;

verus! {

/// Rows, or why there are none.
type Built = Result<Seq<Tree>, Failure<Seq<char>, nat>>;

/// One line that is not blank.
pub open spec fn is_line(s: Seq<char>) -> bool {
    &&& !s.contains('\n')
    &&& !is_blank(s)
}

/// One line is the only one of its text.
proof fn lemma_one_line(s: Seq<char>)
    requires
        is_line(s),
    ensures
        lines(s) == seq![s],
        row_lines(s) == seq![s],
{
    assert forall|i: int| 0 <= i < s.len() implies #[trigger] s[i] != '\n' by {
        assert(s.contains(s[i]));
    }
    lemma_line_end_is(s, s.len());
    lemma_filter_all(seq![s], |l: Seq<char>| !is_blank(l));
}

/// Two lines are the only ones of their text.
proof fn lemma_two_lines(a: Seq<char>, b: Seq<char>)
    requires
        is_line(a),
        is_line(b),
        a.last() != '\r',
    ensures
        row_lines(a + "\n"@ + b) == seq![a, b],
{
    reveal_strlit("\n");
    let s = a + "\n"@ + b;
    assert("\n"@.len() == 1 && "\n"@[0] == '\n');
    let n = a.len() as int;
    assert forall|i: int| 0 <= i < n implies #[trigger] s[i] != '\n' by {
        assert(a.contains(a[i]));
    }
    assert(s[n] == '\n');
    lemma_line_end_is(s, a.len());
    assert(s.take(n) =~= a);
    assert(s.skip(n + 1) =~= b);
    lemma_one_line(b);
    assert(lines(s) =~= seq![a, b]);
    lemma_filter_all(seq![a, b], |l: Seq<char>| !is_blank(l));
}

/// What is put at a path twice is what was put there last.
proof fn lemma_set_twice(t: Tree, p: Seq<nat>, a: Tree, b: Tree)
    requires
        has_path(t, p),
    ensures
        set_at(set_at(t, p, a), p, b) == set_at(t, p, b),
    decreases p.len(),
{
    if p.len() > 0 {
        let i = p[0] as int;
        let old = kids(t);
        let first = set_at(old[i], p.skip(1), a);
        lemma_parent_takes_fields(t);
        lemma_with_kids(t, old.update(i, first));
        lemma_set_twice(old[i], p.skip(1), a, b);
        let last = set_at(old[i], p.skip(1), b);
        assert(old.update(i, first).update(i, last) =~= old.update(i, last));
        lemma_kids_twice(t, old.update(i, first), old.update(i, last));
    }
}

/// A node with other children twice has those of the last time.
proof fn lemma_kids_twice(t: Tree, a: Seq<Tree>, b: Seq<Tree>)
    requires
        t.takes_fields(),
    ensures
        with_kids(with_kids(t, a), b) == with_kids(t, b),
{
    let m = match t {
        Tree::Object(m) => m,
        _ => Map::empty(),
    };
    assert(m.insert("content"@, Tree::Array(a)).insert("content"@, Tree::Array(b)) =~= m.insert(
        "content"@,
        Tree::Array(b),
    ));
}

/// Where one node alone has occurrences, they are all there are.
proof fn lemma_only_anchors(
    d: Dialect,
    nodes: Seq<(Seq<nat>, Tree)>,
    anchor: Seq<char>,
    i: int,
    n: nat,
)
    requires
        n <= nodes.len(),
        forall|j: int|
            0 <= j < nodes.len() && j != i ==> anchors_at(d, #[trigger] nodes[j], anchor).len()
                == 0,
    ensures
        anchors_among(d, nodes, anchor, n) == if 0 <= i < n {
            anchors_at(d, nodes[i], anchor)
        } else {
            Seq::empty()
        },
    decreases n,
{
    if n > 0 {
        lemma_only_anchors(d, nodes, anchor, i, (n - 1) as nat);
        let before = anchors_among(d, nodes, anchor, (n - 1) as nat);
        let here = anchors_at(d, nodes[n - 1], anchor);
        if i == n - 1 {
            assert(before + here =~= here);
        } else {
            assert(here.len() == 0);
            assert(before + here =~= before);
        }
    }
}

/// A row that is the only one with occurrences is listed as often as it has some.
pub proof fn lemma_only_row(d: Dialect, doc: Tree, anchor: Seq<char>, path: Seq<nat>)
    requires
        is_anchor_row(d, doc, anchor, path),
        forall|q: Seq<nat>| #[trigger] is_anchor_row(d, doc, anchor, q) ==> q == path,
    ensures
        row_hits(d, doc, anchor).len() == offsets(
            row_shown(d, node_at(doc, path)),
            anchor,
        ).len(),
        row_hits(d, doc, anchor)[0] == path,
{
    let nodes = visited(doc, Seq::empty());
    lemma_all_visited(doc, Seq::empty(), path);
    assert(Seq::<nat>::empty() + path =~= path);
    let i = choose|i: int| 0 <= i < nodes.len() && nodes[i] == (path, node_at(doc, path));
    lemma_paths_differ(doc, Seq::empty());
    lemma_visited(doc, doc, Seq::empty());
    assert forall|j: int| 0 <= j < nodes.len() && j != i implies anchors_at(
        d,
        #[trigger] nodes[j],
        anchor,
    ).len() == 0 by {
        assert(has_path(doc, nodes[j].0) && node_at(doc, nodes[j].0) == nodes[j].1);
        assert(nodes[i].0 != nodes[j].0);
        assert(!is_anchor_row(d, doc, anchor, nodes[j].0));
    }
    lemma_only_anchors(d, nodes, anchor, i, nodes.len());
}

/// A row that no row above it and no new row shares its anchor with stays the only one.
proof fn lemma_row_stays_only(
    d: Dialect,
    doc: Tree,
    anchor: Seq<char>,
    path: Seq<nat>,
    new: Tree,
    q: Seq<nat>,
)
    requires
        is_anchor_row(d, doc, anchor, path),
        path.len() > 0,
        row_hits(d, doc, anchor).len() == 1,
        row_hits(d, new, anchor).len() == 0,
        !q.is_prefix_of(path.drop_last()),
        is_anchor_row(d, with_siblings(doc, path, 1, seq![new]), anchor, q),
    ensures
        q == path,
{
    let up = path.drop_last();
    let k = path.last() as int;
    let parent = node_at(doc, up);
    let content = kids(parent).take(k + 1) + seq![new] + kids(parent).skip(k + 1);
    let edited = with_kids(parent, content);
    let after = with_siblings(doc, path, 1, seq![new]);
    lemma_parent(doc, path);
    lemma_with_kids(parent, content);
    law_set_is_found(doc, up, edited);
    law_every_anchor_row_counts(d, doc, anchor, path);
    let hits = row_hits(d, doc, anchor);
    assert(hits[0] == path);
    if apart(up, q) {
        law_set_leaves_the_rest(doc, up, edited, q);
        law_every_anchor_row_counts(d, doc, anchor, q);
        assert(hits[0] == q);
    } else {
        let n = up.len() as int;
        let j = q[n];
        let rest = q.skip(n + 1);
        assert(q =~= up + (seq![j] + rest));
        assert((seq![j] + rest).skip(1) =~= rest && (seq![j] + rest)[0] == j);
        lemma_path_add(after, up, seq![j] + rest);
        if j == k + 1 {
            assert(content[j as int] == new);
            law_every_anchor_row_counts(d, new, anchor, rest);
            assert(is_anchor_row(d, new, anchor, rest));
            assert(false);
        } else {
            let i: nat = if j > k + 1 {
                (j - 1) as nat
            } else {
                j
            };
            assert(content[j as int] == kids(parent)[i as int]);
            let p = up + (seq![i] + rest);
            assert((seq![i] + rest).skip(1) =~= rest && (seq![i] + rest)[0] == i);
            lemma_path_add(doc, up, seq![i] + rest);
            law_every_anchor_row_counts(d, doc, anchor, p);
            assert(is_anchor_row(d, doc, anchor, p));
            assert(hits[0] == p);
            assert(p[n] == i && path[n] == k);
            assert(q =~= p);
        }
    }
}

/// Whether a row can be made from the template's cells does not depend on the line.
proof fn lemma_cells_of_another_line(
    d: Dialect,
    a: Seq<Tree>,
    b: Seq<Tree>,
    template: Tree,
    n: nat,
)
    requires
        built_cells(d, a, template, false, n) is Ok,
    ensures
        built_cells(d, b, template, false, n) is Ok,
    decreases n,
{
    if n > 0 {
        lemma_cells_of_another_line(d, a, b, template, (n - 1) as nat);
    }
}

/// The child of a node that its last step leads to.
proof fn lemma_parent_of(t: Tree, path: Seq<nat>, child: Tree)
    requires
        path.len() > 0,
        has_path(t, path.drop_last()),
        path.last() < kids(node_at(t, path.drop_last())).len(),
        kids(node_at(t, path.drop_last()))[path.last() as int] == child,
    ensures
        has_path(t, path),
        node_at(t, path) == child,
{
    lemma_path_push(t, path.drop_last(), path.last());
    assert(path.drop_last().push(path.last()) =~= path);
}

/// The rows that two lines give, at once and alone.
proof fn lemma_built_lines(
    d: Dialect,
    template: Tree,
    first: Seq<char>,
    second: Seq<char>,
)
    requires
        is_line(first),
        is_line(second),
        first.last() != '\r',
        built_rows(d, template, second, true) is Ok,
        parsed_row(d, first, kids(template).len()) is Ok,
    ensures
        ({
            let r1 = built_row(d, template, first, false)->Ok_0;
            let r2 = built_row(d, template, second, false)->Ok_0;
            &&& built_rows(d, template, first, true) == Built::Ok(seq![r1])
            &&& built_rows(d, template, second, true) == Built::Ok(seq![r2])
            &&& built_rows(d, template, first + "\n"@ + second, true) == Built::Ok(seq![r1, r2])
        }),
{
    let n = kids(template).len();
    lemma_one_line(first);
    lemma_one_line(second);
    lemma_two_lines(first, second);
    reveal_with_fuel(built_rows_of, 3);
    lemma_cells_of_another_line(
        d,
        parsed_row(d, second, n)->Ok_0,
        parsed_row(d, first, n)->Ok_0,
        template,
        n,
    );
    let r1 = built_row(d, template, first, false)->Ok_0;
    let r2 = built_row(d, template, second, false)->Ok_0;
    assert(Seq::<Tree>::empty().push(r1) =~= seq![r1]);
    assert(Seq::<Tree>::empty().push(r2) =~= seq![r2]);
    assert(seq![r1].push(r2) =~= seq![r1, r2]);
}

/// A row put after another, and then one more between the two.
proof fn lemma_siblings_twice(doc: Tree, path: Seq<nat>, r1: Tree, r2: Tree)
    requires
        has_path(doc, path),
        path.len() > 0,
    ensures
        ({
            let middle = with_siblings(doc, path, 1, seq![r2]);
            &&& has_path(middle, path)
            &&& node_at(middle, path) == node_at(doc, path)
            &&& with_siblings(middle, path, 1, seq![r1]) == with_siblings(
                doc,
                path,
                1,
                seq![r1, r2],
            )
        }),
{
    let middle = with_siblings(doc, path, 1, seq![r2]);
    lemma_parent(doc, path);
    let up = path.drop_last();
    let k = path.last() as int;
    let parent = node_at(doc, up);
    let content = kids(parent).take(k + 1) + seq![r2] + kids(parent).skip(k + 1);
    lemma_with_kids(parent, content);
    law_set_is_found(doc, up, with_kids(parent, content));
    assert(content[k] == kids(parent)[k]);
    lemma_parent_of(middle, path, node_at(doc, path));
    let last = kids(parent).take(k + 1) + seq![r1, r2] + kids(parent).skip(k + 1);
    assert(content.take(k + 1) + seq![r1] + content.skip(k + 1) =~= last);
    lemma_kids_twice(parent, content, last);
    lemma_set_twice(doc, up, with_kids(parent, content), with_kids(parent, last));
}

/// Rows appended in two lines at once come to the same as the second appended, and then the
/// first after the same row: one new row for each line, in their order, directly after the row
/// that contains the anchor. The first line does not end with a carriage return, which would
/// belong to the line break between the two. The anchor must not occur in the second new row, nor, where the
/// table itself stands inside a table row, in what that row then shows.
pub proof fn law_two_lines_append_like_one_by_one(
    d: Dialect,
    doc: Tree,
    anchor: Seq<char>,
    first: Seq<char>,
    second: Seq<char>,
)
    requires
        is_doc(doc),
        is_line(first),
        is_line(second),
        first.last() != '\r',
        rows_appended(d, doc, anchor, second) is Ok,
        ({
            let path = row_hits(d, doc, anchor)[0];
            let template = node_at(doc, path);
            let middle = rows_appended(d, doc, anchor, second)->Ok_0.0;
            &&& parsed_row(d, first, kids(template).len()) is Ok
            &&& row_hits(d, built_row(d, template, second, false)->Ok_0, anchor).len() == 0
            &&& forall|q: Seq<nat>|
                q.is_prefix_of(path.drop_last()) ==> !#[trigger] is_anchor_row(
                    d,
                    middle,
                    anchor,
                    q,
                )
        }),
    ensures
        ({
            let path = row_hits(d, doc, anchor)[0];
            let template = node_at(doc, path);
            let middle = rows_appended(d, doc, anchor, second)->Ok_0.0;
            let at_once = rows_appended(d, doc, anchor, first + "\n"@ + second);
            let one_by_one = rows_appended(d, middle, anchor, first);
            &&& at_once is Ok
            &&& one_by_one is Ok
            &&& at_once->Ok_0.0 == one_by_one->Ok_0.0
            &&& at_once->Ok_0.0 == with_siblings(
                doc,
                path,
                1,
                seq![
                    built_row(d, template, first, false)->Ok_0,
                    built_row(d, template, second, false)->Ok_0,
                ],
            )
        }),
{
    lemma_kinds_differ();
    let hits = row_hits(d, doc, anchor);
    let path = hits[0];
    let template = node_at(doc, path);
    lemma_row_hits(d, doc, anchor, visited(doc, Seq::empty()).len());
    assert(has_path(doc, path) && kind(template) == Some("tableRow"@));
    law_every_anchor_row_counts(d, doc, anchor, path);
    assert(hits.contains(path));
    lemma_built_lines(d, template, first, second);
    let r1 = built_row(d, template, first, false)->Ok_0;
    let r2 = built_row(d, template, second, false)->Ok_0;
    let middle = with_siblings(doc, path, 1, seq![r2]);
    lemma_siblings_twice(doc, path, r1, r2);
    assert(is_anchor_row(d, middle, anchor, path));
    assert forall|q: Seq<nat>| #[trigger] is_anchor_row(d, middle, anchor, q) implies q == path by {
        if !q.is_prefix_of(path.drop_last()) {
            lemma_row_stays_only(d, doc, anchor, path, r2, q);
        }
    }
    lemma_only_row(d, middle, anchor, path);
}

} // verus!
