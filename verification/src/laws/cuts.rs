//! Where a match cuts the nodes of its block: text nodes between the characters at which it begins
//! and ends, and every other node not at all.

use vstd::prelude::*;

use crate::json::Tree;
use crate::laws::spans::{
    is_wrapped, lemma_prefix, lemma_total_width, one_by_one,
};
use crate::laws::wording::law_a_slice_is_what_stands_between;
use crate::markdown::Dialect;
use crate::spans::{
    aligned, alone, divided, end_cut, first_node, is_text, last_node, length_of,
    lemma_clean_ends, lemma_first_past, lemma_first_up_to, lemma_start_order, part, start_cut,
    start_of, text_of, Span,
};
use crate::text::{is_offset, lemma_width_add, lemma_width_take, width};

verus! {

/// A piece of a text node: the node with `text` in place of its own, and nothing for no text.
pub open spec fn text_piece(t: Tree, text: Seq<char>) -> Seq<Tree> {
    if text.len() == 0 {
        Seq::empty()
    } else if text == text_of(t) {
        seq![t]
    } else {
        seq![t.with("text"@, Tree::String(text))]
    }
}

/// A text has width exactly where it has characters.
proof fn lemma_width_zero(s: Seq<char>)
    ensures
        width(s) == 0 <==> s.len() == 0,
{
    lemma_width_take(s, 0, s.len() as int);
    assert(s.take(s.len() as int) =~= s);
    assert(s.take(0) =~= Seq::<char>::empty());
}

/// Nodes begin where what comes before them ends.
proof fn lemma_starts(d: Dialect, nodes: Seq<Tree>, i: int)
    requires
        0 <= i <= nodes.len(),
    ensures
        start_of(d, nodes, i) == width(one_by_one(d, nodes.take(i))),
{
    lemma_total_width(d, nodes.take(i));
}

/// The node after some others ends where its rendering ends.
proof fn lemma_node_ends(d: Dialect, a: Seq<Tree>, t: Tree, b: Seq<Tree>)
    ensures
        start_of(d, a + seq![t] + b, a.len() as int) == width(one_by_one(d, a)),
        start_of(d, a + seq![t] + b, a.len() as int + 1) == width(one_by_one(d, a)) + width(
            alone(d, t),
        ),
        (a + seq![t] + b)[a.len() as int] == t,
{
    let nodes = a + seq![t] + b;
    let i = a.len() as int;
    lemma_starts(d, nodes, i);
    lemma_starts(d, nodes, i + 1);
    assert(nodes.take(i) =~= a);
    assert(nodes.take(i + 1) =~= a + seq![t]);
    assert((a + seq![t]).drop_last() =~= a);
    lemma_width_add(one_by_one(d, a), alone(d, t));
}

/// The node in which an offset lies.
proof fn lemma_first_is(d: Dialect, nodes: Seq<Tree>, start: int, i: int)
    requires
        0 <= i < nodes.len(),
        start_of(d, nodes, i) <= start < start_of(d, nodes, i + 1),
    ensures
        first_node(d, nodes, start) == i,
{
    let f = first_node(d, nodes, start);
    lemma_first_past(d, nodes, start, 0);
    if f < i {
        lemma_start_order(d, nodes, f + 1, i);
    } else if f > i {
        assert(start_of(d, nodes, i + 1) <= start);
    }
}

/// The node up to which an offset goes.
proof fn lemma_last_is(d: Dialect, nodes: Seq<Tree>, end: int, i: int)
    requires
        0 <= i < nodes.len(),
        start_of(d, nodes, i) < end <= start_of(d, nodes, i + 1),
    ensures
        last_node(d, nodes, end) == i,
{
    let l = last_node(d, nodes, end);
    lemma_first_up_to(d, nodes, end, 0);
    if l < i {
        lemma_start_order(d, nodes, l + 1, i);
    } else if l > i {
        assert(!(start_of(d, nodes, i) < end <= start_of(d, nodes, i + 1)));
    }
}

/// The part of a text node between two of its characters.
proof fn lemma_text_part(t: Tree, x: Seq<char>, y: Seq<char>, z: Seq<char>)
    requires
        is_text(t),
        text_of(t) == x + y + z,
    ensures
        part(t, width(x) as int, width(x + y) as int) == text_piece(t, y),
        is_offset(text_of(t), width(x) as int),
        is_offset(text_of(t), width(x + y) as int),
        width(x) <= width(x + y) <= length_of(t),
{
    let s = text_of(t);
    assert(s.take(x.len() as int) =~= x);
    assert(s.take((x.len() + y.len()) as int) =~= x + y);
    lemma_width_add(x, y);
    lemma_width_add(x + y, z);
    lemma_width_zero(x);
    lemma_width_zero(y);
    lemma_width_zero(z);
    law_a_slice_is_what_stands_between(x, y, z);
    if y.len() > 0 {
        if width(x) == 0 && width(x + y) == length_of(t) {
            assert(y =~= s);
        } else {
            if y == s {
                assert(x.len() + z.len() == 0);
            }
        }
    }
}

/// A match inside one text node cuts it in three. The nodes around it are not cut.
pub proof fn law_a_match_inside_one_text(
    d: Dialect,
    a: Seq<Tree>,
    t: Tree,
    b: Seq<Tree>,
    pre: Seq<char>,
    post: Seq<char>,
    x: Seq<char>,
    y: Seq<char>,
    z: Seq<char>,
)
    requires
        is_text(t),
        is_wrapped(d, t, pre, post),
        text_of(t) == x + y + z,
        y.len() > 0,
        width(one_by_one(d, a + seq![t] + b)) <= usize::MAX,
    ensures
        ({
            let nodes = a + seq![t] + b;
            let start = width(one_by_one(d, a) + pre + x) as int;
            let parts = divided(d, nodes, start, start + width(y));
            &&& aligned(d, nodes, start, start + width(y))
            &&& parts.before == a + text_piece(t, x)
            &&& parts.covered == text_piece(t, y)
            &&& parts.after == text_piece(t, z) + b
        }),
{
    let nodes = a + seq![t] + b;
    let shown = one_by_one(d, a);
    let start = width(shown + pre + x) as int;
    let end = start + width(y);
    let i = a.len() as int;
    lemma_node_ends(d, a, t, b);
    lemma_width_add(shown, pre);
    lemma_width_add(shown + pre, x);
    lemma_width_add(pre, x + y + z);
    lemma_width_add(pre + (x + y + z), post);
    lemma_width_add(x + y, z);
    lemma_width_add(x, y);
    lemma_width_zero(y);
    lemma_first_is(d, nodes, start, i);
    lemma_last_is(d, nodes, end, i);
    lemma_prefix(d, t, pre, post);
    lemma_total_width(d, nodes);
    assert(start_cut(d, nodes, start) == width(x));
    assert(end_cut(d, nodes, start, end) == width(x + y));
    let none = Seq::<char>::empty();
    assert(none + x + (y + z) =~= x + y + z);
    assert(none + x =~= x);
    assert((x + y) + z + none =~= x + y + z);
    assert((x + y) + z =~= x + y + z);
    lemma_text_part(t, none, x, y + z);
    lemma_text_part(t, x, y, z);
    lemma_text_part(t, x + y, z, none);
    assert(width(none) == 0);
    let parts = divided(d, nodes, start, end);
    assert(nodes.take(i) =~= a);
    assert(nodes.skip(i + 1) =~= b);
}

/// A match across nodes cuts the text nodes in which it begins and ends. The nodes between them
/// are covered whole, and those around them are not cut.
pub proof fn law_a_match_across_nodes(
    d: Dialect,
    a: Seq<Tree>,
    f: Tree,
    m: Seq<Tree>,
    l: Tree,
    b: Seq<Tree>,
    wraps: (Seq<char>, Seq<char>, Seq<char>, Seq<char>),
    x: Seq<char>,
    y: Seq<char>,
    u: Seq<char>,
    v: Seq<char>,
)
    requires
        is_text(f),
        is_text(l),
        is_wrapped(d, f, wraps.0, wraps.1),
        is_wrapped(d, l, wraps.2, wraps.3),
        text_of(f) == x + y,
        text_of(l) == u + v,
        y.len() > 0,
        u.len() > 0,
        width(one_by_one(d, a + seq![f] + m + seq![l] + b)) <= usize::MAX,
    ensures
        ({
            let nodes = a + seq![f] + m + seq![l] + b;
            let start = width(one_by_one(d, a) + wraps.0 + x) as int;
            let end = width(one_by_one(d, a + seq![f] + m) + wraps.2 + u) as int;
            let parts = divided(d, nodes, start, end);
            &&& aligned(d, nodes, start, end)
            &&& parts.before == a + text_piece(f, x)
            &&& parts.covered == text_piece(f, y) + m + text_piece(l, u)
            &&& parts.after == text_piece(l, v) + b
        }),
{
    let nodes = a + seq![f] + m + seq![l] + b;
    let start = width(one_by_one(d, a) + wraps.0 + x) as int;
    let end = width(one_by_one(d, a + seq![f] + m) + wraps.2 + u) as int;
    let (i, j) = (a.len() as int, (a.len() + 1 + m.len()) as int);
    assert(nodes =~= a + seq![f] + (m + seq![l] + b));
    assert(nodes =~= (a + seq![f] + m) + seq![l] + b);
    lemma_node_ends(d, a, f, m + seq![l] + b);
    lemma_node_ends(d, a + seq![f] + m, l, b);
    let shown = one_by_one(d, a);
    lemma_width_add(shown, wraps.0);
    lemma_width_add(shown + wraps.0, x);
    lemma_width_add(wraps.0, x + y);
    lemma_width_add(wraps.0 + (x + y), wraps.1);
    lemma_width_add(x, y);
    lemma_width_zero(y);
    let most = one_by_one(d, a + seq![f] + m);
    lemma_width_add(most, wraps.2);
    lemma_width_add(most + wraps.2, u);
    lemma_width_add(wraps.2, u + v);
    lemma_width_add(wraps.2 + (u + v), wraps.3);
    lemma_width_add(u, v);
    lemma_width_zero(u);
    lemma_first_is(d, nodes, start, i);
    lemma_last_is(d, nodes, end, j);
    lemma_prefix(d, f, wraps.0, wraps.1);
    lemma_prefix(d, l, wraps.2, wraps.3);
    lemma_total_width(d, nodes);
    assert(start_cut(d, nodes, start) == width(x));
    assert(end_cut(d, nodes, start, end) == width(u));
    let none = Seq::<char>::empty();
    assert(width(none) == 0);
    assert(none + x + y =~= x + y);
    assert(none + x =~= x);
    assert(x + y + none =~= x + y);
    assert(none + u + v =~= u + v);
    assert(none + u =~= u);
    assert(u + v + none =~= u + v);
    lemma_text_part(f, none, x, y);
    lemma_text_part(f, x, y, none);
    lemma_text_part(l, none, u, v);
    lemma_text_part(l, u, v, none);
    assert(nodes.take(i) =~= a);
    assert(nodes.subrange(i + 1, j) =~= m);
    assert(nodes.skip(j + 1) =~= b);
}

/// A node that a match can end with: an atom, or a text node whose text the reader wraps once.
pub open spec fn ends_cleanly(d: Dialect, t: Tree) -> bool {
    is_text(t) ==> text_of(t).len() > 0 && exists|pre: Seq<char>, post: Seq<char>|
        is_wrapped(d, t, pre, post)
}

/// A match over whole nodes covers them as they are, and cuts none.
pub proof fn law_a_match_over_whole_nodes(d: Dialect, a: Seq<Tree>, m: Seq<Tree>, b: Seq<Tree>)
    requires
        m.len() > 0,
        alone(d, m[0]).len() > 0,
        alone(d, m.last()).len() > 0,
        ends_cleanly(d, m[0]),
        ends_cleanly(d, m.last()),
        width(one_by_one(d, a + m + b)) <= usize::MAX,
    ensures
        ({
            let start = width(one_by_one(d, a)) as int;
            let end = width(one_by_one(d, a + m)) as int;
            let parts = divided(d, a + m + b, start, end);
            &&& aligned(d, a + m + b, start, end)
            &&& parts.before == a
            &&& parts.covered == m
            &&& parts.after == b
        }),
{
    let nodes = a + m + b;
    let start = width(one_by_one(d, a)) as int;
    let end = width(one_by_one(d, a + m)) as int;
    let (f, l) = (m[0], m.last());
    let (i, j) = (a.len() as int, a.len() + m.len() - 1);
    assert(nodes =~= a + seq![f] + (m.skip(1) + b));
    assert(nodes =~= (a + m.drop_last()) + seq![l] + b);
    lemma_node_ends(d, a, f, m.skip(1) + b);
    lemma_node_ends(d, a + m.drop_last(), l, b);
    lemma_starts(d, nodes, j + 1);
    assert(nodes.take(j + 1) =~= a + m);
    lemma_width_zero(alone(d, f));
    lemma_width_zero(alone(d, l));
    lemma_first_is(d, nodes, start, i);
    lemma_last_is(d, nodes, end, j);
    lemma_total_width(d, nodes);
    lemma_clean_ends(f);
    lemma_clean_ends(l);
    if is_text(f) {
        let (pre, post) = choose|pre: Seq<char>, post: Seq<char>| is_wrapped(d, f, pre, post);
        lemma_prefix(d, f, pre, post);
        lemma_width_zero(text_of(f));
    }
    if is_text(l) {
        let (pre, post) = choose|pre: Seq<char>, post: Seq<char>| is_wrapped(d, l, pre, post);
        lemma_prefix(d, l, pre, post);
        lemma_width_add(pre, text_of(l));
        lemma_width_add(pre + text_of(l), post);
        lemma_width_zero(text_of(l));
    }
    assert(start_cut(d, nodes, start) == 0);
    assert(end_cut(d, nodes, start, end) == length_of(l));
    let parts = divided(d, nodes, start, end);
    assert(nodes.take(i) =~= a);
    assert(nodes.skip(j + 1) =~= b);
    assert(parts.before =~= a);
    assert(parts.after =~= b);
    if i < j {
        assert(nodes.subrange(i + 1, j) =~= m.subrange(1, m.len() - 1));
        assert(parts.covered =~= seq![f] + m.subrange(1, m.len() - 1) + seq![l]);
        assert(parts.covered =~= m);
    } else {
        assert(parts.covered =~= m);
    }
}

/// A match that begins with a whole node and ends inside a text node covers the first whole and
/// cuts the last.
pub proof fn law_a_match_from_a_whole_node(
    d: Dialect,
    a: Seq<Tree>,
    m: Seq<Tree>,
    l: Tree,
    b: Seq<Tree>,
    wrap: (Seq<char>, Seq<char>),
    u: Seq<char>,
    v: Seq<char>,
)
    requires
        m.len() > 0,
        alone(d, m[0]).len() > 0,
        ends_cleanly(d, m[0]),
        is_text(l),
        is_wrapped(d, l, wrap.0, wrap.1),
        text_of(l) == u + v,
        u.len() > 0,
        width(one_by_one(d, a + m + seq![l] + b)) <= usize::MAX,
    ensures
        ({
            let nodes = a + m + seq![l] + b;
            let start = width(one_by_one(d, a)) as int;
            let end = width(one_by_one(d, a + m) + wrap.0 + u) as int;
            let parts = divided(d, nodes, start, end);
            &&& aligned(d, nodes, start, end)
            &&& parts.before == a
            &&& parts.covered == m + text_piece(l, u)
            &&& parts.after == text_piece(l, v) + b
        }),
{
    let nodes = a + m + seq![l] + b;
    let start = width(one_by_one(d, a)) as int;
    let end = width(one_by_one(d, a + m) + wrap.0 + u) as int;
    let f = m[0];
    let (i, j) = (a.len() as int, (a.len() + m.len()) as int);
    assert(nodes =~= a + seq![f] + (m.skip(1) + seq![l] + b));
    lemma_node_ends(d, a, f, m.skip(1) + seq![l] + b);
    lemma_node_ends(d, a + m, l, b);
    lemma_width_zero(alone(d, f));
    let most = one_by_one(d, a + m);
    lemma_width_add(most, wrap.0);
    lemma_width_add(most + wrap.0, u);
    lemma_width_add(wrap.0, u + v);
    lemma_width_add(wrap.0 + (u + v), wrap.1);
    lemma_width_add(u, v);
    lemma_width_zero(u);
    lemma_first_is(d, nodes, start, i);
    lemma_last_is(d, nodes, end, j);
    lemma_prefix(d, l, wrap.0, wrap.1);
    lemma_total_width(d, nodes);
    lemma_clean_ends(f);
    if is_text(f) {
        let (pre, post) = choose|pre: Seq<char>, post: Seq<char>| is_wrapped(d, f, pre, post);
        lemma_prefix(d, f, pre, post);
        lemma_width_zero(text_of(f));
    }
    assert(start_cut(d, nodes, start) == 0);
    assert(end_cut(d, nodes, start, end) == width(u));
    let none = Seq::<char>::empty();
    assert(width(none) == 0);
    assert(none + u + v =~= u + v);
    assert(none + u =~= u);
    assert(u + v + none =~= u + v);
    lemma_text_part(l, none, u, v);
    lemma_text_part(l, u, v, none);
    let parts = divided(d, nodes, start, end);
    assert(nodes.take(i) =~= a);
    assert(nodes.subrange(i + 1, j) =~= m.skip(1));
    assert(nodes.skip(j + 1) =~= b);
    assert(parts.before =~= a);
    assert(parts.covered =~= m + text_piece(l, u)) by {
        assert(seq![f] + m.skip(1) =~= m);
    }
}

/// A match that begins inside a text node and ends with a whole node cuts the first and covers
/// the last whole.
pub proof fn law_a_match_up_to_a_whole_node(
    d: Dialect,
    a: Seq<Tree>,
    f: Tree,
    m: Seq<Tree>,
    b: Seq<Tree>,
    wrap: (Seq<char>, Seq<char>),
    x: Seq<char>,
    y: Seq<char>,
)
    requires
        m.len() > 0,
        alone(d, m.last()).len() > 0,
        ends_cleanly(d, m.last()),
        is_text(f),
        is_wrapped(d, f, wrap.0, wrap.1),
        text_of(f) == x + y,
        y.len() > 0,
        width(one_by_one(d, a + seq![f] + m + b)) <= usize::MAX,
    ensures
        ({
            let nodes = a + seq![f] + m + b;
            let start = width(one_by_one(d, a) + wrap.0 + x) as int;
            let end = width(one_by_one(d, a + seq![f] + m)) as int;
            let parts = divided(d, nodes, start, end);
            &&& aligned(d, nodes, start, end)
            &&& parts.before == a + text_piece(f, x)
            &&& parts.covered == text_piece(f, y) + m
            &&& parts.after == b
        }),
{
    let nodes = a + seq![f] + m + b;
    let start = width(one_by_one(d, a) + wrap.0 + x) as int;
    let end = width(one_by_one(d, a + seq![f] + m)) as int;
    let l = m.last();
    let (i, j) = (a.len() as int, (a.len() + m.len()) as int);
    let lead = a + seq![f] + m.drop_last();
    assert(nodes =~= a + seq![f] + (m + b));
    assert(nodes =~= lead + seq![l] + b);
    lemma_node_ends(d, a, f, m + b);
    lemma_node_ends(d, lead, l, b);
    lemma_starts(d, nodes, j + 1);
    assert(nodes.take(j + 1) =~= a + seq![f] + m);
    lemma_width_zero(alone(d, l));
    let shown = one_by_one(d, a);
    lemma_width_add(shown, wrap.0);
    lemma_width_add(shown + wrap.0, x);
    lemma_width_add(wrap.0, x + y);
    lemma_width_add(wrap.0 + (x + y), wrap.1);
    lemma_width_add(x, y);
    lemma_width_zero(y);
    lemma_first_is(d, nodes, start, i);
    lemma_last_is(d, nodes, end, j);
    lemma_prefix(d, f, wrap.0, wrap.1);
    lemma_total_width(d, nodes);
    lemma_clean_ends(l);
    if is_text(l) {
        let (pre, post) = choose|pre: Seq<char>, post: Seq<char>| is_wrapped(d, l, pre, post);
        lemma_prefix(d, l, pre, post);
        lemma_width_add(pre, text_of(l));
        lemma_width_add(pre + text_of(l), post);
        lemma_width_zero(text_of(l));
    }
    assert(start_cut(d, nodes, start) == width(x));
    assert(end_cut(d, nodes, start, end) == length_of(l));
    let none = Seq::<char>::empty();
    assert(width(none) == 0);
    assert(none + x + y =~= x + y);
    assert(none + x =~= x);
    assert(x + y + none =~= x + y);
    lemma_text_part(f, none, x, y);
    lemma_text_part(f, x, y, none);
    let parts = divided(d, nodes, start, end);
    assert(nodes.take(i) =~= a);
    assert(nodes.subrange(i + 1, j) =~= m.drop_last());
    assert(nodes.skip(j + 1) =~= b);
    assert(parts.after =~= b);
    assert(parts.covered =~= text_piece(f, y) + m) by {
        assert(m.drop_last() + seq![l] =~= m);
    }
}

/// A match inside an atom that does not reach both its ends covers nothing of it, and the atom
/// stays whole on one side.
pub proof fn law_atoms_are_not_cut(
    d: Dialect,
    a: Seq<Tree>,
    t: Tree,
    b: Seq<Tree>,
    from: nat,
    to: nat,
)
    requires
        !is_text(t),
        from < to <= width(alone(d, t)),
        from > 0 || to < width(alone(d, t)),
    ensures
        ({
            let start = (width(one_by_one(d, a)) + from) as int;
            let end = (width(one_by_one(d, a)) + to) as int;
            let parts = divided(d, a + seq![t] + b, start, end);
            &&& parts.covered.len() == 0
            &&& parts.before + parts.after == a + seq![t] + b
        }),
{
    let nodes = a + seq![t] + b;
    let start = (width(one_by_one(d, a)) + from) as int;
    let end = (width(one_by_one(d, a)) + to) as int;
    let i = a.len() as int;
    lemma_node_ends(d, a, t, b);
    lemma_first_is(d, nodes, start, i);
    lemma_last_is(d, nodes, end, i);
    let parts = divided(d, nodes, start, end);
    assert(nodes.take(i) =~= a);
    assert(nodes.skip(i + 1) =~= b);
    assert(parts.before + parts.after =~= a + seq![t] + b);
}

/// A Markdown offset inside a node: before its text none of it, behind its text all of it, and
/// in between the distance from where the text begins. An atom lies on one side.
pub proof fn law_cuts_are_clamped(span: Span, at: int, is_end: bool)
    ensures
        span.is_text && at <= span.start + span.prefix ==> span.cut_spec(at, is_end) == 0,
        span.is_text && at >= span.start + span.prefix + span.len ==> span.cut_spec(at, is_end)
            == span.len,
        span.is_text && span.start + span.prefix <= at <= span.start + span.prefix + span.len
            ==> span.start + span.prefix + span.cut_spec(at, is_end) == at,
        !span.is_text ==> span.cut_spec(at, true) == if at < span.end {
            0int
        } else {
            1
        },
        !span.is_text ==> span.cut_spec(at, false) == if at <= span.start {
            0int
        } else {
            1
        },
{
}

} // verus!
