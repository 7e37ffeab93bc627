//! ProseMirror nodes: type, children and marks, and the nodes of a document by their paths.

use vstd::prelude::*;
use vstd::string::*;

use crate::json::{lemma_array, trees, Json, Tree};
use crate::text::same_text;
use crate::wording::{decimal, number_text};

verus! {

/// The type of a node or of a mark.
pub open spec fn kind(t: Tree) -> Option<Seq<char>> {
    t.text_field("type"@)
}

/// The children of a node.
pub open spec fn kids(t: Tree) -> Seq<Tree> {
    t.list_field("content"@)
}

/// The marks of a node.
pub open spec fn marks(t: Tree) -> Seq<Tree> {
    t.list_field("marks"@)
}

/// A text node without marks.
pub open spec fn text_node(text: Seq<char>) -> Tree {
    Tree::Object(
        Map::empty().insert("type"@, Tree::String("text"@)).insert("text"@, Tree::String(text)),
    )
}

/// A path is the numbers of the children that lead to a node.
pub open spec fn steps(path: Seq<usize>) -> Seq<nat> {
    path.map_values(|i: usize| i as nat)
}

/// There is a node at `path`.
pub open spec fn has_path(t: Tree, path: Seq<nat>) -> bool
    decreases path.len(),
{
    path.len() > 0 ==> path[0] < kids(t).len() && has_path(kids(t)[path[0] as int], path.skip(1))
}

/// The node at `path`.
pub open spec fn node_at(t: Tree, path: Seq<nat>) -> Tree
    decreases path.len(),
{
    if path.len() == 0 {
        t
    } else {
        node_at(kids(t)[path[0] as int], path.skip(1))
    }
}

/// A node with other children.
pub open spec fn with_kids(t: Tree, content: Seq<Tree>) -> Tree {
    t.with("content"@, Tree::Array(content))
}

/// The tree with `new` in place of the node at `path`.
pub open spec fn set_at(t: Tree, path: Seq<nat>, new: Tree) -> Tree
    decreases path.len(),
{
    if path.len() == 0 {
        new
    } else {
        let i = path[0] as int;
        with_kids(t, kids(t).update(i, set_at(kids(t)[i], path.skip(1), new)))
    }
}

/// A path as a JSON pointer.
pub open spec fn pointer(path: Seq<nat>) -> Seq<char>
    decreases path.len(),
{
    if path.len() == 0 {
        Seq::empty()
    } else {
        pointer(path.drop_last()) + "/content/"@ + decimal(path.last())
    }
}

/// The nodes of a tree with their paths, which start with `path`. Children come before their
/// parent.
pub open spec fn visited(t: Tree, path: Seq<nat>) -> Seq<(Seq<nat>, Tree)>
    decreases t, kids(t).len() + 1,
{
    visited_kids(t, path, kids(t).len()).push((path, t))
}

/// The nodes under the first `n` children.
pub open spec fn visited_kids(t: Tree, path: Seq<nat>, n: nat) -> Seq<(Seq<nat>, Tree)>
    decreases t, n,
{
    if n == 0 || n > kids(t).len() {
        Seq::empty()
    } else {
        visited_kids(t, path, (n - 1) as nat) + visited(
            kids(t)[n - 1],
            path.push((n - 1) as nat),
        )
    }
}

/// A node with its path.
pub type Place<'a> = (Vec<usize>, &'a Json);

/// The places as mathematics.
pub open spec fn places(v: Seq<Place>) -> Seq<(Seq<nat>, Tree)> {
    v.map_values(|p: Place| (steps(p.0@), p.1@))
}

/// The type of a node or of a mark.
pub fn node_type(node: &Json) -> (r: Option<&str>)
    ensures
        r is Some <==> kind(node@) is Some,
        r matches Some(s) ==> kind(node@) == Some(s@),
{
    node.text_at("type")
}

/// Whether a node or a mark has the type `name`.
pub fn is_a(node: &Json, name: &str) -> (r: bool)
    ensures
        r == (kind(node@) == Some(name@)),
{
    match node_type(node) {
        Some(s) => same_text(s, name),
        None => false,
    }
}

/// The children of a node.
pub fn children(node: &Json) -> (r: &[Json])
    ensures
        trees(r@) == kids(node@),
        forall|i: int| 0 <= i < r@.len() ==> decreases_to!(node => #[trigger] r@[i]),
{
    node.list_at("content")
}

/// The marks of a node.
pub fn marks_of(node: &Json) -> (r: &[Json])
    ensures
        trees(r@) == marks(node@),
{
    node.list_at("marks")
}

/// A text node without marks.
pub fn new_text(text: &str) -> (r: Json)
    ensures
        r@ == text_node(text@),
{
    Json::Null.with("type", Json::String("text".to_owned())).with(
        "text",
        Json::String(text.to_owned()),
    )
}

/// A path one step longer.
fn step(path: &Vec<usize>, i: usize) -> (r: Vec<usize>)
    ensures
        r@ == path@.push(i),
{
    let mut r: Vec<usize> = path.clone();
    r.push(i);
    r
}

fn visit<'a>(node: &'a Json, path: Vec<usize>, out: &mut Vec<Place<'a>>)
    ensures
        places(final(out)@) == places(old(out)@) + visited(node@, steps(path@)),
    decreases node,
{
    let nodes: &'a [Json] = children(node);
    let ghost before = places(out@);
    let ghost at = steps(path@);
    let mut i: usize = 0;
    assert(before + visited_kids(node@, at, 0) =~= before);
    while i < nodes.len()
        invariant
            i <= nodes@.len(),
            trees(nodes@) == kids(node@),
            at == steps(path@),
            places(out@) == before + visited_kids(node@, at, i as nat),
            forall|i: int| 0 <= i < nodes@.len() ==> decreases_to!(node => #[trigger] nodes@[i]),
        decreases nodes@.len() - i,
    {
        let longer: Vec<usize> = step(&path, i);
        proof {
            assert(steps(longer@) =~= at.push(i as nat));
            assert(trees(nodes@)[i as int] == nodes@[i as int]@);
        }
        visit(&nodes[i], longer, out);
        assert(places(out@) =~= before + visited_kids(node@, at, (i + 1) as nat));
        i = i + 1;
    }
    let ghost now = places(out@);
    out.push((path, node));
    assert(places(out@) =~= now.push((at, node@)));
    assert(places(out@) =~= before + visited(node@, at));
}

/// Every node of a tree with its path, depth first.
pub fn walk(root: &Json) -> (r: Vec<Place<'_>>)
    ensures
        places(r@) == visited(root@, Seq::empty()),
{
    let mut out: Vec<Place<'_>> = Vec::new();
    let path: Vec<usize> = Vec::new();
    assert(places(out@) =~= Seq::empty());
    assert(steps(path@) =~= Seq::empty());
    visit(root, path, &mut out);
    assert(places(out@) =~= visited(root@, Seq::empty()));
    out
}

/// Copies of values.
pub fn copies(nodes: &[Json]) -> (r: Vec<Json>)
    ensures
        trees(r@) == trees(nodes@),
{
    let mut r: Vec<Json> = Vec::new();
    append_copies(&mut r, nodes, 0, nodes.len());
    assert(trees(r@) =~= trees(nodes@));
    r
}

/// Adds copies of the nodes from number `from` up to number `to`.
pub fn append_copies(out: &mut Vec<Json>, nodes: &[Json], from: usize, to: usize)
    requires
        from <= to <= nodes@.len(),
    ensures
        trees(final(out)@) == trees(old(out)@) + trees(nodes@).subrange(from as int, to as int),
        final(out)@.len() == old(out)@.len() + (to - from),
{
    let ghost before = out@;
    let mut i: usize = from;
    while i < to
        invariant
            from <= i <= to <= nodes@.len(),
            out@.len() == before.len() + (i - from),
            trees(out@) =~= trees(before) + trees(nodes@).subrange(from as int, i as int),
        decreases to - i,
    {
        let ghost now = out@;
        out.push(nodes[i].clone());
        assert(trees(out@) =~= trees(now).push(nodes@[i as int]@));
        i = i + 1;
    }
}

/// A copy of a node with other children.
pub fn replace_children(node: &Json, content: Vec<Json>) -> (r: Json)
    requires
        node@.takes_fields(),
    ensures
        r@ == with_kids(node@, trees(content@)),
{
    proof {
        lemma_array(content);
    }
    node.clone().with("content", Json::Array(content))
}

/// The node at a path.
pub fn find_node<'a>(root: &'a Json, path: &Vec<usize>) -> (r: &'a Json)
    requires
        has_path(root@, steps(path@)),
    ensures
        r@ == node_at(root@, steps(path@)),
{
    let mut node: &'a Json = root;
    let mut i: usize = 0;
    let ghost all = steps(path@);
    assert(all.skip(0) =~= all);
    while i < path.len()
        invariant
            i <= path@.len(),
            all == steps(path@),
            has_path(node@, all.skip(i as int)),
            node_at(node@, all.skip(i as int)) == node_at(root@, all),
        decreases path@.len() - i,
    {
        let nodes: &'a [Json] = children(node);
        proof {
            assert(all.skip(i as int)[0] == path@[i as int]);
            assert(all.skip(i as int).skip(1) =~= all.skip(i + 1));
            assert(trees(nodes@)[path@[i as int] as int] == nodes@[path@[i as int] as int]@);
        }
        node = &nodes[path[i]];
        i = i + 1;
    }
    node
}

fn replace_below(node: &Json, path: &Vec<usize>, from: usize, new: Json) -> (r: Json)
    requires
        from <= path@.len(),
        has_path(node@, steps(path@).skip(from as int)),
    ensures
        r@ == set_at(node@, steps(path@).skip(from as int), new@),
    decreases path@.len() - from,
{
    let ghost rest = steps(path@).skip(from as int);
    if from == path.len() {
        return new;
    }
    let nodes: &[Json] = children(node);
    let i: usize = path[from];
    proof {
        assert(rest[0] == i);
        assert(rest.skip(1) =~= steps(path@).skip(from + 1));
        assert(trees(nodes@)[i as int] == nodes@[i as int]@);
    }
    let inner: Json = replace_below(&nodes[i], path, from + 1, new);
    let mut content: Vec<Json> = Vec::new();
    append_copies(&mut content, nodes, 0, i);
    let ghost before = content@;
    content.push(inner);
    assert(trees(content@) =~= trees(before).push(inner@));
    append_copies(&mut content, nodes, i + 1, nodes.len());
    assert(trees(content@) =~= kids(node@).update(i as int, inner@));
    replace_children(node, content)
}

/// A copy of a tree with `new` in place of the node at `path`.
pub fn replace_node(root: &Json, path: &Vec<usize>, new: Json) -> (r: Json)
    requires
        has_path(root@, steps(path@)),
    ensures
        r@ == set_at(root@, steps(path@), new@),
{
    assert(steps(path@).skip(0) =~= steps(path@));
    replace_below(root, path, 0, new)
}

/// A path as a JSON pointer.
pub fn pointer_text(path: &Vec<usize>) -> (r: String)
    ensures
        r@ == pointer(steps(path@)),
{
    let ghost all = steps(path@);
    let mut r: String = String::new();
    let mut i: usize = 0;
    assert(r@ =~= pointer(all.take(0)));
    while i < path.len()
        invariant
            i <= path@.len(),
            all == steps(path@),
            r@ == pointer(all.take(i as int)),
        decreases path@.len() - i,
    {
        r.append("/content/");
        r.append(number_text(path[i]).as_str());
        assert(all.take(i + 1).drop_last() =~= all.take(i as int));
        assert(all.take(i + 1).last() == path@[i as int]);
        i = i + 1;
    }
    assert(all.take(all.len() as int) =~= all);
    r
}

/// A path that continues another leads where the rest leads from there.
pub proof fn lemma_path_push(t: Tree, path: Seq<nat>, i: nat)
    ensures
        has_path(t, path.push(i)) <==> has_path(t, path) && i < kids(node_at(t, path)).len(),
        has_path(t, path.push(i)) ==> node_at(t, path.push(i)) == kids(node_at(t, path))[i as int],
    decreases path.len(),
{
    let longer = path.push(i);
    if path.len() == 0 {
        assert(longer.skip(1) =~= Seq::<nat>::empty());
        reveal_with_fuel(has_path, 2);
        reveal_with_fuel(node_at, 2);
    } else {
        assert(longer.skip(1) =~= path.skip(1).push(i));
        assert(longer[0] == path[0]);
        if path[0] < kids(t).len() {
            lemma_path_push(kids(t)[path[0] as int], path.skip(1), i);
        }
    }
}

/// What is visited below a node of a tree is the tree's nodes at their paths.
pub proof fn lemma_visited(root: Tree, t: Tree, path: Seq<nat>)
    requires
        has_path(root, path),
        node_at(root, path) == t,
    ensures
        forall|j: int|
            0 <= j < visited(t, path).len() ==> has_path(root, (#[trigger] visited(t, path)[j]).0)
                && node_at(root, visited(t, path)[j].0) == visited(t, path)[j].1,
    decreases t, kids(t).len() + 1,
{
    lemma_visited_kids(root, t, path, kids(t).len());
}

proof fn lemma_visited_kids(root: Tree, t: Tree, path: Seq<nat>, n: nat)
    requires
        has_path(root, path),
        node_at(root, path) == t,
        n <= kids(t).len(),
    ensures
        forall|j: int|
            0 <= j < visited_kids(t, path, n).len() ==> has_path(
                root,
                (#[trigger] visited_kids(t, path, n)[j]).0,
            ) && node_at(root, visited_kids(t, path, n)[j].0) == visited_kids(t, path, n)[j].1,
    decreases t, n,
{
    if n > 0 {
        let before = visited_kids(t, path, (n - 1) as nat);
        let i = (n - 1) as nat;
        lemma_visited_kids(root, t, path, i);
        lemma_path_push(root, path, i);
        lemma_visited(root, kids(t)[i as int], path.push(i));
        assert forall|j: int| 0 <= j < visited_kids(t, path, n).len() implies has_path(
            root,
            (#[trigger] visited_kids(t, path, n)[j]).0,
        ) && node_at(root, visited_kids(t, path, n)[j].0) == visited_kids(t, path, n)[j].1 by {
            if j < before.len() {
                assert(visited_kids(t, path, n)[j] == before[j]);
            } else {
                assert(visited_kids(t, path, n)[j] == visited(kids(t)[i as int], path.push(i))[j
                    - before.len()]);
            }
        }
    }
}

} // verus!
