//! The matches that an operation counts are all there are, each of them once.

use vstd::prelude::*;

use crate::json::Tree;
use crate::laws::threads::lemma_all_visited;
use crate::markdown::Dialect;
use crate::node::{has_path, kids, kind, lemma_visited, node_at, visited, visited_kids};
use crate::operations::{
    anchors_among, anchors_at, block_hits, hits_among, hits_at, is_hit, is_textblock,
    lemma_text_hits, row_hits, text_hits, Hit,
};
use crate::rows::row_shown;
use crate::text::{lemma_offsets_before, offsets};

verus! {

/// The matches at a node are among those at the first `n` nodes.
proof fn lemma_hits_among(
    d: Dialect,
    nodes: Seq<(Seq<nat>, Tree)>,
    find: Seq<char>,
    n: nat,
    i: int,
    hit: Hit,
)
    requires
        0 <= i < n,
        hits_at(d, nodes[i], find).contains(hit),
    ensures
        hits_among(d, nodes, find, n).contains(hit),
    decreases n,
{
    let before = hits_among(d, nodes, find, (n - 1) as nat);
    let here = hits_at(d, nodes[n - 1], find);
    let now = hits_among(d, nodes, find, n);
    if i == n - 1 {
        let k = choose|k: int| 0 <= k < here.len() && here[k] == hit;
        assert(now[before.len() + k] == hit);
    } else {
        lemma_hits_among(d, nodes, find, (n - 1) as nat, i, hit);
        let k = choose|k: int| 0 <= k < before.len() && before[k] == hit;
        assert(now[k] == hit);
    }
}

/// A table row is no block of text.
proof fn lemma_row_is_no_textblock(t: Tree)
    requires
        kind(t) == Some("tableRow"@),
    ensures
        !is_textblock(t),
{
    reveal_strlit("tableRow");
    reveal_strlit("paragraph");
    reveal_strlit("heading");
    reveal_strlit("codeBlock");
    reveal_strlit("detailsSummary");
    assert("tableRow"@.len() == 8);
    assert("paragraph"@.len() == 9);
    assert("heading"@.len() == 7);
    assert("codeBlock"@.len() == 9);
    assert("detailsSummary"@.len() == 14);
}

/// Every match of `find` in the document is counted, at whatever depth, and nothing else is.
pub proof fn law_every_match_counts(d: Dialect, doc: Tree, find: Seq<char>, hit: Hit)
    ensures
        text_hits(d, doc, find).contains(hit) <==> is_hit(d, doc, find, hit),
{
    let nodes = visited(doc, Seq::empty());
    let hits = text_hits(d, doc, find);
    lemma_text_hits(d, doc, find, nodes.len());
    if hits.contains(hit) {
        let j = choose|j: int| 0 <= j < hits.len() && hits[j] == hit;
        assert(is_hit(d, doc, find, hits[j]));
    }
    if is_hit(d, doc, find, hit) {
        lemma_all_visited(doc, Seq::empty(), hit.0);
        assert(Seq::<nat>::empty() + hit.0 =~= hit.0);
        let t = node_at(doc, hit.0);
        let i = choose|i: int| 0 <= i < nodes.len() && nodes[i] == (hit.0, t);
        let here = hits_at(d, nodes[i], find);
        match hit.1 {
            Some(at) => {
                let found = offsets((d.inline)(kids(t)), find);
                let k = choose|k: int| 0 <= k < found.len() && found[k] == at;
                assert(here[k] == hit);
            },
            None => {
                lemma_row_is_no_textblock(t);
                assert(here[0] == hit);
            },
        }
        lemma_hits_among(d, nodes, find, nodes.len(), i, hit);
    }
}

/// The paths below a node start with its path, and are distinct.
pub proof fn lemma_paths_differ(t: Tree, path: Seq<nat>)
    ensures
        forall|i: int|
            0 <= i < visited(t, path).len() ==> path.is_prefix_of(
                (#[trigger] visited(t, path)[i]).0,
            ),
        forall|i: int, j: int|
            0 <= i < j < visited(t, path).len() ==> (#[trigger] visited(t, path)[i]).0 != (
            #[trigger] visited(t, path)[j]).0,
    decreases t, kids(t).len() + 1,
{
    let n = kids(t).len();
    lemma_kid_paths_differ(t, path, n);
    let below = visited_kids(t, path, n);
    let all = visited(t, path);
    assert forall|i: int| 0 <= i < all.len() implies path.is_prefix_of((#[trigger] all[i]).0) by {
        if i < below.len() {
            assert(all[i] == below[i]);
        }
    }
    assert forall|i: int, j: int| 0 <= i < j < all.len() implies (#[trigger] all[i]).0 != (
    #[trigger] all[j]).0 by {
        assert(all[i] == below[i]);
        if j < below.len() {
            assert(all[j] == below[j]);
        }
    }
}

proof fn lemma_kid_paths_differ(t: Tree, path: Seq<nat>, n: nat)
    requires
        n <= kids(t).len(),
    ensures
        forall|i: int|
            0 <= i < visited_kids(t, path, n).len() ==> {
                let p = (#[trigger] visited_kids(t, path, n)[i]).0;
                path.is_prefix_of(p) && path.len() < p.len() && p[path.len() as int] < n
            },
        forall|i: int, j: int|
            0 <= i < j < visited_kids(t, path, n).len() ==> (#[trigger] visited_kids(
                t,
                path,
                n,
            )[i]).0 != (#[trigger] visited_kids(t, path, n)[j]).0,
    decreases t, n,
{
    if n > 0 {
        let m = (n - 1) as nat;
        lemma_kid_paths_differ(t, path, m);
        lemma_paths_differ(kids(t)[m as int], path.push(m));
        let before = visited_kids(t, path, m);
        let inner = visited(kids(t)[m as int], path.push(m));
        let all = visited_kids(t, path, n);
        assert forall|i: int| 0 <= i < all.len() implies {
            let p = (#[trigger] all[i]).0;
            path.is_prefix_of(p) && path.len() < p.len() && p[path.len() as int] < n && (i
                >= before.len() ==> p[path.len() as int] == m)
        } by {
            if i < before.len() {
                assert(all[i] == before[i]);
            } else {
                let p = inner[i - before.len()].0;
                assert(all[i] == inner[i - before.len()]);
                assert(path.push(m).is_prefix_of(p));
                assert(p[path.len() as int] == path.push(m)[path.len() as int]);
                assert(path =~= p.take(path.len() as int)) by {
                    assert(path.push(m) =~= p.take(path.len() as int + 1));
                    assert forall|k: int| 0 <= k < path.len() implies path[k] == p[k] by {
                        assert(path.push(m)[k] == p[k]);
                    }
                }
            }
        }
        assert forall|i: int, j: int| 0 <= i < j < all.len() implies (#[trigger] all[i]).0 != (
        #[trigger] all[j]).0 by {
            if j < before.len() {
                assert(all[i] == before[i] && all[j] == before[j]);
            } else if i >= before.len() {
                assert(all[i] == inner[i - before.len()] && all[j] == inner[j - before.len()]);
            } else {
                assert(all[i] == before[i]);
            }
        }
    }
}

/// The matches at the first `n` nodes lie at those nodes, and are distinct.
proof fn lemma_hits_differ(d: Dialect, nodes: Seq<(Seq<nat>, Tree)>, find: Seq<char>, n: nat)
    requires
        n <= nodes.len(),
        forall|i: int, j: int|
            0 <= i < j < nodes.len() ==> (#[trigger] nodes[i]).0 != (#[trigger] nodes[j]).0,
    ensures
        forall|k: int|
            0 <= k < hits_among(d, nodes, find, n).len() ==> exists|i: int|
                0 <= i < n && (#[trigger] nodes[i]).0 == (#[trigger] hits_among(
                    d,
                    nodes,
                    find,
                    n,
                )[k]).0,
        hits_among(d, nodes, find, n).no_duplicates(),
    decreases n,
{
    if n > 0 {
        lemma_hits_differ(d, nodes, find, (n - 1) as nat);
        let before = hits_among(d, nodes, find, (n - 1) as nat);
        let (path, t) = nodes[n - 1];
        let here = hits_at(d, nodes[n - 1], find);
        let now = hits_among(d, nodes, find, n);
        let text = (d.inline)(kids(t));
        lemma_offsets_before(text, find, text.len());
        assert forall|k: int| 0 <= k < now.len() implies exists|i: int|
            0 <= i < n && (#[trigger] nodes[i]).0 == (#[trigger] now[k]).0 by {
            if k < before.len() {
                assert(now[k] == before[k]);
                let i = choose|i: int|
                    0 <= i < n - 1 && (#[trigger] nodes[i]).0 == before[k].0;
                assert(nodes[i].0 == now[k].0);
            } else {
                assert(now[k] == here[k - before.len()]);
                assert(nodes[n - 1].0 == now[k].0);
            }
        }
        assert forall|a: int, b: int| 0 <= a < now.len() && 0 <= b < now.len() && a
            != b implies now[a] != now[b] by {
            let (a, b) = if a < b {
                (a, b)
            } else {
                (b, a)
            };
            if b < before.len() {
                assert(now[a] == before[a] && now[b] == before[b]);
            } else if a >= before.len() {
                assert(now[a] == here[a - before.len()] && now[b] == here[b - before.len()]);
            } else {
                assert(now[a] == before[a] && now[b] == here[b - before.len()]);
                let i = choose|i: int|
                    0 <= i < n - 1 && (#[trigger] nodes[i]).0 == before[a].0;
                assert(nodes[i].0 != nodes[n - 1].0);
            }
        }
    }
}

/// The one match of `find` in the document.
pub open spec fn is_only_match(d: Dialect, doc: Tree, find: Seq<char>, hit: Hit) -> bool {
    is_hit(d, doc, find, hit) && forall|other: Hit| #[trigger]
        is_hit(d, doc, find, other) ==> other == hit
}

/// The count of matches is one exactly where there is one match and no other.
pub proof fn law_one_match_is_unique(d: Dialect, doc: Tree, find: Seq<char>)
    ensures
        text_hits(d, doc, find).len() == 1 <==> exists|hit: Hit| #[trigger]
            is_only_match(d, doc, find, hit),
        text_hits(d, doc, find).len() == 1 ==> is_only_match(
            d,
            doc,
            find,
            text_hits(d, doc, find)[0],
        ),
{
    let nodes = visited(doc, Seq::empty());
    let hits = text_hits(d, doc, find);
    lemma_paths_differ(doc, Seq::empty());
    lemma_hits_differ(d, nodes, find, nodes.len());
    assert forall|hit: Hit| #[trigger] is_hit(d, doc, find, hit) <==> hits.contains(hit) by {
        law_every_match_counts(d, doc, find, hit);
    }
    if hits.len() == 1 {
        assert(hits.contains(hits[0]));
        assert(is_only_match(d, doc, find, hits[0]));
    }
    if exists|hit: Hit| #[trigger] is_only_match(d, doc, find, hit) {
        let hit = choose|hit: Hit| #[trigger] is_only_match(d, doc, find, hit);
        assert(is_hit(d, doc, find, hit));
        assert(hits.contains(hit));
        if hits.len() > 1 {
            assert(hits.contains(hits[0]) && hits.contains(hits[1]));
            assert(is_hit(d, doc, find, hits[0]) && is_hit(d, doc, find, hits[1]));
            assert(hits[0] == hits[1]);
        }
    }
}

/// No match is counted twice.
pub proof fn law_no_match_counts_twice(d: Dialect, doc: Tree, find: Seq<char>)
    ensures
        text_hits(d, doc, find).no_duplicates(),
{
    let nodes = visited(doc, Seq::empty());
    lemma_paths_differ(doc, Seq::empty());
    lemma_hits_differ(d, nodes, find, nodes.len());
}

/// How often an item is listed.
pub open spec fn times<A>(s: Seq<A>, x: A) -> nat
    decreases s.len(),
{
    if s.len() == 0 {
        0
    } else {
        times(s.drop_last(), x) + if s.last() == x {
            1nat
        } else {
            0
        }
    }
}

proof fn lemma_times_add<A>(a: Seq<A>, b: Seq<A>, x: A)
    ensures
        times(a + b, x) == times(a, x) + times(b, x),
    decreases b.len(),
{
    if b.len() == 0 {
        assert(a + b =~= a);
    } else {
        assert((a + b).drop_last() =~= a + b.drop_last());
        lemma_times_add(a, b.drop_last(), x);
    }
}

/// A list of one item over and over.
proof fn lemma_times_same<A>(s: Seq<A>, y: A, x: A)
    requires
        forall|i: int| 0 <= i < s.len() ==> #[trigger] s[i] == y,
    ensures
        times(s, x) == if x == y {
            s.len()
        } else {
            0
        },
    decreases s.len(),
{
    if s.len() > 0 {
        assert forall|i: int| 0 <= i < s.len() - 1 implies #[trigger] s.drop_last()[i] == y by {
            assert(s[i] == y);
        }
        assert(s[s.len() - 1] == y);
        lemma_times_same(s.drop_last(), y, x);
    }
}

proof fn lemma_anchor_times(
    d: Dialect,
    nodes: Seq<(Seq<nat>, Tree)>,
    anchor: Seq<char>,
    path: Seq<nat>,
    i: int,
    n: nat,
)
    requires
        n <= nodes.len(),
        0 <= i < nodes.len(),
        nodes[i].0 == path,
        forall|a: int, b: int|
            0 <= a < b < nodes.len() ==> (#[trigger] nodes[a]).0 != (#[trigger] nodes[b]).0,
    ensures
        times(anchors_among(d, nodes, anchor, n), path) == if i < n {
            anchors_at(d, nodes[i], anchor).len()
        } else {
            0
        },
    decreases n,
{
    if n > 0 {
        let k = n - 1;
        lemma_anchor_times(d, nodes, anchor, path, i, k as nat);
        let here = anchors_at(d, nodes[k], anchor);
        lemma_times_add(anchors_among(d, nodes, anchor, k as nat), here, path);
        lemma_times_same(here, nodes[k].0, path);
        if k != i {
            if k < i {
                assert(nodes[k].0 != nodes[i].0);
            } else {
                assert(nodes[i].0 != nodes[k].0);
            }
        }
    }
}

/// A table row is counted exactly as often as the anchor occurs in it.
pub proof fn law_a_row_counts_once_for_each_occurrence(
    d: Dialect,
    doc: Tree,
    anchor: Seq<char>,
    path: Seq<nat>,
)
    requires
        has_path(doc, path),
    ensures
        times(row_hits(d, doc, anchor), path) == if node_at(doc, path).text_field("type"@) == Some(
            "tableRow"@,
        ) {
            offsets(row_shown(d, node_at(doc, path)), anchor).len()
        } else {
            0
        },
{
    let nodes = visited(doc, Seq::empty());
    lemma_all_visited(doc, Seq::empty(), path);
    assert(Seq::<nat>::empty() + path =~= path);
    let i = choose|i: int| 0 <= i < nodes.len() && nodes[i] == (path, node_at(doc, path));
    lemma_paths_differ(doc, Seq::empty());
    lemma_anchor_times(d, nodes, anchor, path, i, nodes.len());
}

/// A table row in which `anchor` occurs.
pub open spec fn is_anchor_row(d: Dialect, doc: Tree, anchor: Seq<char>, path: Seq<nat>) -> bool {
    &&& has_path(doc, path)
    &&& kind(node_at(doc, path)) == Some("tableRow"@)
    &&& offsets(row_shown(d, node_at(doc, path)), anchor).len() > 0
}

/// The occurrences in a row are among those in the first `n` nodes.
proof fn lemma_anchors_among(
    d: Dialect,
    nodes: Seq<(Seq<nat>, Tree)>,
    anchor: Seq<char>,
    n: nat,
    i: int,
)
    requires
        0 <= i < n,
        anchors_at(d, nodes[i], anchor).len() > 0,
    ensures
        anchors_among(d, nodes, anchor, n).contains(nodes[i].0),
        anchors_at(d, nodes[i], anchor).len() <= anchors_among(d, nodes, anchor, n).len(),
    decreases n,
{
    let before = anchors_among(d, nodes, anchor, (n - 1) as nat);
    let now = anchors_among(d, nodes, anchor, n);
    if i == n - 1 {
        assert(now[before.len() as int] == nodes[i].0);
    } else {
        lemma_anchors_among(d, nodes, anchor, (n - 1) as nat, i);
        let k = choose|k: int| 0 <= k < before.len() && before[k] == nodes[i].0;
        assert(now[k] == nodes[i].0);
    }
}

/// A row at which occurrences are listed has some.
proof fn lemma_anchors_listed(
    d: Dialect,
    nodes: Seq<(Seq<nat>, Tree)>,
    anchor: Seq<char>,
    n: nat,
    k: int,
)
    requires
        0 <= k < anchors_among(d, nodes, anchor, n).len(),
    ensures
        exists|i: int|
            0 <= i < n && (#[trigger] nodes[i]).0 == anchors_among(d, nodes, anchor, n)[k]
                && anchors_at(d, nodes[i], anchor).len() > 0,
    decreases n,
{
    if n > 0 {
        let before = anchors_among(d, nodes, anchor, (n - 1) as nat);
        if k < before.len() {
            lemma_anchors_listed(d, nodes, anchor, (n - 1) as nat, k);
            let i = choose|i: int|
                0 <= i < n - 1 && (#[trigger] nodes[i]).0 == before[k] && anchors_at(
                    d,
                    nodes[i],
                    anchor,
                ).len() > 0;
            assert(nodes[i].0 == anchors_among(d, nodes, anchor, n)[k]);
        } else {
            assert(nodes[n - 1].0 == anchors_among(d, nodes, anchor, n)[k]);
        }
    }
}

/// Every table row in which `anchor` occurs is counted, at whatever depth, as often as it occurs,
/// and no other node is.
pub proof fn law_every_anchor_row_counts(d: Dialect, doc: Tree, anchor: Seq<char>, path: Seq<nat>)
    ensures
        row_hits(d, doc, anchor).contains(path) <==> is_anchor_row(d, doc, anchor, path),
        is_anchor_row(d, doc, anchor, path) ==> offsets(
            row_shown(d, node_at(doc, path)),
            anchor,
        ).len() <= row_hits(d, doc, anchor).len(),
{
    let nodes = visited(doc, Seq::empty());
    let hits = row_hits(d, doc, anchor);
    if hits.contains(path) {
        let k = choose|k: int| 0 <= k < hits.len() && hits[k] == path;
        lemma_anchors_listed(d, nodes, anchor, nodes.len(), k);
        let i = choose|i: int|
            0 <= i < nodes.len() && (#[trigger] nodes[i]).0 == path && anchors_at(
                d,
                nodes[i],
                anchor,
            ).len() > 0;
        lemma_visited(doc, doc, Seq::empty());
        assert(has_path(doc, nodes[i].0) && node_at(doc, nodes[i].0) == nodes[i].1);
    }
    if is_anchor_row(d, doc, anchor, path) {
        lemma_all_visited(doc, Seq::empty(), path);
        assert(Seq::<nat>::empty() + path =~= path);
        let i = choose|i: int| 0 <= i < nodes.len() && nodes[i] == (path, node_at(doc, path));
        lemma_anchors_among(d, nodes, anchor, nodes.len(), i);
    }
}

/// Every top-level block in which `anchor` occurs is counted, and no other one is.
pub proof fn law_every_anchor_block_counts(
    d: Dialect,
    blocks: Seq<Tree>,
    anchor: Seq<char>,
    n: nat,
    i: int,
)
    requires
        n <= blocks.len(),
    ensures
        block_hits(d, blocks, anchor, n).contains(i) <==> 0 <= i < n && offsets(
            (d.blocks)(seq![blocks[i]]),
            anchor,
        ).len() > 0,
    decreases n,
{
    if n > 0 {
        law_every_anchor_block_counts(d, blocks, anchor, (n - 1) as nat, i);
        let before = block_hits(d, blocks, anchor, (n - 1) as nat);
        let found = offsets((d.blocks)(seq![blocks[n - 1]]), anchor);
        let now = block_hits(d, blocks, anchor, n);
        if now.contains(i) {
            let k = choose|k: int| 0 <= k < now.len() && now[k] == i;
            if k < before.len() {
                assert(before[k] == i);
            }
        }
        if before.contains(i) {
            let k = choose|k: int| 0 <= k < before.len() && before[k] == i;
            assert(now[k] == i);
        }
        if i == n - 1 && found.len() > 0 {
            assert(now[before.len() as int] == i);
        }
    }
}

} // verus!
