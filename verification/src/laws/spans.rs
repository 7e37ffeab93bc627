//! A replaced span: what it may cover, and what becomes of the nodes around it.

use vstd::prelude::*;

use crate::failure::Failure;
use crate::inline::{first_hidden, inline_result, literal, spliced};
use crate::json::Tree;
use crate::laws::locality::same_but_content;
use crate::markdown::Dialect;
use crate::marks::{bared, shared_marks};
use crate::node::{kids, kind};
use crate::operations::{lemma_kinds_differ, lemma_with_kids};
use crate::spacing::{
    is_blank, leading_space, lemma_leading_space, lemma_trailing_space, trailing_space, trimmed,
    white_space,
};
use crate::spans::{
    aligned, alone, cut_of, cuts_cleanly, divided, first_node, is_text, last_node, length_of,
    lemma_clean_ends, lemma_first_past, lemma_first_up_to, part, prefix_of, start_cut, start_of, text_of,
    total_width, SENTINEL,
};
use crate::text::{
    chars_before, is_offset, lemma_chars_before, lemma_offsets_before, lemma_width_add,
    lemma_width_take, occurs_at, offsets, slice, width,
};

verus! {

/// Up to the first hidden node, every node shows.
pub proof fn lemma_first_hidden(d: Dialect, nodes: Seq<Tree>, i: int)
    requires
        0 <= i <= nodes.len(),
    ensures
        i <= first_hidden(d, nodes, i) <= nodes.len(),
        forall|j: int|
            i <= j < first_hidden(d, nodes, i) ==> alone(d, #[trigger] nodes[j]).len() > 0,
        first_hidden(d, nodes, i) < nodes.len() ==> alone(
            d,
            nodes[first_hidden(d, nodes, i)],
        ).len() == 0,
    decreases nodes.len() - i,
{
    if i < nodes.len() && alone(d, nodes[i]).len() > 0 {
        lemma_first_hidden(d, nodes, i + 1);
    }
}

/// A replaced span deletes no node without a Markdown form: every node between the two in which
/// the match begins and ends is rendered as something, and so is what it covers of those two.
pub proof fn law_nothing_hidden_is_deleted(
    d: Dialect,
    block: Tree,
    start: int,
    find: Seq<char>,
    replace: Seq<char>,
)
    requires
        spliced(d, block, start, find, replace) is Ok,
    ensures
        ({
            let nodes = kids(block);
            let end = start + width(find);
            let covered = divided(d, nodes, start, end).covered;
            &&& forall|i: int|
                first_node(d, nodes, start) < i < last_node(d, nodes, end) ==> alone(
                    d,
                    #[trigger] nodes[i],
                ).len() > 0
            &&& forall|i: int|
                0 <= i < covered.len() ==> alone(d, #[trigger] covered[i]).len() > 0
        }),
{
    let nodes = kids(block);
    let end = start + width(find);
    let (first, last) = (first_node(d, nodes, start), last_node(d, nodes, end));
    let covered = divided(d, nodes, start, end).covered;
    lemma_first_hidden(d, covered, 0);
    lemma_first_past(d, nodes, start, 0);
    lemma_first_up_to(d, nodes, end, 0);
    let lead = part(nodes[first], start_cut(d, nodes, start), length_of(nodes[first]));
    assert forall|i: int| first < i < last implies alone(d, #[trigger] nodes[i]).len() > 0 by {
        assert(covered[lead.len() + (i - first - 1)] == nodes[i]);
    }
}

/// A replaced span starts and ends outside mark syntax: the nodes that it covers render as
/// `find`, with all their marks or without the visible ones that they share.
pub proof fn law_a_span_has_whole_marks(
    d: Dialect,
    block: Tree,
    start: int,
    find: Seq<char>,
    replace: Seq<char>,
)
    requires
        spliced(d, block, start, find, replace) is Ok,
    ensures
        ({
            let covered = divided(d, kids(block), start, start + width(find)).covered;
            let common = shared_marks(covered);
            ||| (d.inline)(covered) == find
            ||| (d.inline)(covered.map_values(|n: Tree| bared(n, common))) == find
        }),
{
}

/// A code block takes the new text literally.
pub proof fn law_code_is_literal(
    d: Dialect,
    block: Tree,
    start: int,
    find: Seq<char>,
    replace: Seq<char>,
)
    requires
        spliced(d, block, start, find, replace) is Ok,
        kind(block) == Some("codeBlock"@),
    ensures
        ({
            let parts = divided(d, kids(block), start, start + width(find));
            kids(spliced(d, block, start, find, replace)->Ok_0) == parts.before + literal(replace)
                + parts.after
        }),
{
    let parts = divided(d, kids(block), start, start + width(find));
    lemma_with_kids(block, parts.before + literal(replace) + parts.after);
}

/// A replaced span leaves every field of the block but its content.
pub proof fn law_a_block_keeps_its_fields(
    d: Dialect,
    block: Tree,
    start: int,
    find: Seq<char>,
    replace: Seq<char>,
)
    requires
        spliced(d, block, start, find, replace) is Ok,
        block.takes_fields(),
    ensures
        same_but_content(spliced(d, block, start, find, replace)->Ok_0, block),
        kind(spliced(d, block, start, find, replace)->Ok_0) == kind(block),
{
    lemma_kinds_differ();
}

/// The text of some nodes, one after the other.
pub open spec fn all_text(nodes: Seq<Tree>) -> Seq<char>
    decreases nodes.len(),
{
    if nodes.len() == 0 {
        Seq::empty()
    } else {
        all_text(nodes.drop_last()) + text_of(nodes.last())
    }
}

/// The text of a part of a text node, which keeps every other field.
proof fn lemma_part(t: Tree, lo: int, hi: int)
    requires
        is_text(t),
        0 <= lo <= hi <= length_of(t),
        is_offset(text_of(t), lo),
        is_offset(text_of(t), hi),
    ensures
        all_text(part(t, lo, hi)) == slice(text_of(t), lo, hi),
        forall|i: int, key: Seq<char>|
            0 <= i < part(t, lo, hi).len() && key != "text"@ ==> #[trigger] part(t, lo, hi)[i].field(
                key,
            ) == t.field(key),
{
    let s = text_of(t);
    let (a, b) = (chars_before(s, lo), chars_before(s, hi));
    lemma_kinds_differ();
    assert(s.take(0) =~= Seq::<char>::empty());
    assert(s.take(s.len() as int) =~= s);
    if lo == hi {
        assert(slice(s, lo, hi) =~= Seq::<char>::empty());
        assert(part(t, lo, hi).len() == 0);
    } else {
        let node = part(t, lo, hi)[0];
        if lo == 0 && hi == length_of(t) {
            lemma_chars_before(s, 0);
            lemma_chars_before(s, s.len() as int);
            assert(slice(s, lo, hi) =~= s);
        }
        assert(part(t, lo, hi) =~= seq![node]);
        assert(text_of(node) == slice(s, lo, hi));
        reveal_with_fuel(all_text, 2);
        assert(part(t, lo, hi).drop_last() =~= Seq::<Tree>::empty());
        assert(all_text(part(t, lo, hi)) =~= text_of(node));
    }
}

/// Cutting a text node loses nothing: its parts have its text one after the other, and keep its
/// marks and every other field.
pub proof fn law_a_cut_text_rejoins(t: Tree, lo: int, hi: int)
    requires
        is_text(t),
        0 <= lo <= hi <= length_of(t),
        is_offset(text_of(t), lo),
        is_offset(text_of(t), hi),
    ensures
        all_text(part(t, 0, lo)) + all_text(part(t, lo, hi)) + all_text(
            part(t, hi, length_of(t)),
        ) == text_of(t),
        forall|i: int, key: Seq<char>|
            0 <= i < part(t, 0, lo).len() && key != "text"@ ==> #[trigger] part(t, 0, lo)[i].field(
                key,
            ) == t.field(key),
        forall|i: int, key: Seq<char>|
            0 <= i < part(t, hi, length_of(t)).len() && key != "text"@ ==> #[trigger] part(
                t,
                hi,
                length_of(t),
            )[i].field(key) == t.field(key),
{
    let s = text_of(t);
    let (a, b) = (chars_before(s, lo), chars_before(s, hi));
    assert(s.take(0) =~= Seq::<char>::empty());
    assert(s.take(s.len() as int) =~= s);
    lemma_chars_before(s, 0);
    lemma_chars_before(s, s.len() as int);
    lemma_part(t, 0, lo);
    lemma_part(t, lo, hi);
    lemma_part(t, hi, length_of(t));
    if b < a {
        lemma_width_take(s, b, a);
    }
    assert(slice(s, 0, lo) + slice(s, lo, hi) + slice(s, hi, length_of(t)) =~= s);
}

/// White space around new Markdown is kept as text: what is parsed is the text without it, and
/// the three parts are the whole.
pub proof fn law_white_space_is_kept(d: Dialect, markdown: Seq<char>)
    requires
        inline_result(d, markdown) is Ok,
        !is_blank(markdown),
    ensures
        ({
            let lead = markdown.take(leading_space(markdown) as int);
            let trail = markdown.skip(markdown.len() - trailing_space(markdown));
            let core = trimmed(markdown);
            &&& lead + core + trail == markdown
            &&& is_blank(lead) && is_blank(trail)
            &&& core.len() > 0 && !white_space(core[0]) && !white_space(core.last())
            &&& inline_result(d, markdown)->Ok_0 == literal(lead) + kids(kids((d.parse)(core))[0])
                + literal(trail)
        }),
{
    lemma_leading_space(markdown);
    lemma_trailing_space(markdown);
    let lead = markdown.take(leading_space(markdown) as int);
    let trail = markdown.skip(markdown.len() - trailing_space(markdown));
    let core = trimmed(markdown);
    assert(lead + core + trail =~= markdown);
    assert forall|i: int| 0 <= i < trail.len() implies white_space(#[trigger] trail[i]) by {
        assert(white_space(markdown[markdown.len() - trailing_space(markdown) + i]));
    }
    assert forall|i: int| 0 <= i < lead.len() implies white_space(#[trigger] lead[i]) by {
        assert(white_space(markdown[i]));
    }
}

/// The nodes as Markdown, each rendered alone.
pub open spec fn one_by_one(d: Dialect, nodes: Seq<Tree>) -> Seq<char>
    decreases nodes.len(),
{
    if nodes.len() == 0 {
        Seq::empty()
    } else {
        one_by_one(d, nodes.drop_last()) + alone(d, nodes.last())
    }
}

/// The syntax around the text of a node: the same around its own text as around the character
/// that stands for a text, which the syntax before it does not hold.
pub open spec fn is_wrapped(d: Dialect, t: Tree, pre: Seq<char>, post: Seq<char>) -> bool {
    &&& alone(d, t) == pre + text_of(t) + post
    &&& alone(d, t.with("text"@, Tree::String(SENTINEL@))) == pre + SENTINEL@ + post
    &&& !pre.contains(SENTINEL@[0])
}

/// A reader that renders the nodes of a block one after the other, and wraps each text in mark
/// syntax exactly once.
pub open spec fn reads_faithfully(d: Dialect, nodes: Seq<Tree>) -> bool {
    &&& (d.inline)(nodes) == one_by_one(d, nodes)
    &&& width((d.inline)(nodes)) <= usize::MAX
    &&& forall|i: int|
        0 <= i < nodes.len() && is_text(#[trigger] nodes[i]) ==> exists|
            pre: Seq<char>,
            post: Seq<char>,
        |
            is_wrapped(d, nodes[i], pre, post)
}

/// Nodes in two parts are rendered part by part.
proof fn lemma_one_by_one_add(d: Dialect, a: Seq<Tree>, b: Seq<Tree>)
    ensures
        one_by_one(d, a + b) == one_by_one(d, a) + one_by_one(d, b),
    decreases b.len(),
{
    if b.len() == 0 {
        assert(a + b =~= a);
        assert(one_by_one(d, a) + Seq::<char>::empty() =~= one_by_one(d, a));
    } else {
        assert((a + b).drop_last() =~= a + b.drop_last());
        lemma_one_by_one_add(d, a, b.drop_last());
        assert(one_by_one(d, a + b) =~= one_by_one(d, a) + one_by_one(d, b));
    }
}

/// The total width is that of the rendering one by one.
pub proof fn lemma_total_width(d: Dialect, nodes: Seq<Tree>)
    ensures
        total_width(d, nodes) == width(one_by_one(d, nodes)),
    decreases nodes.len(),
{
    if nodes.len() > 0 {
        lemma_total_width(d, nodes.drop_last());
        lemma_width_add(one_by_one(d, nodes.drop_last()), alone(d, nodes.last()));
    }
}

/// The syntax before the text is as wide as the reader shows it.
pub proof fn lemma_prefix(d: Dialect, t: Tree, pre: Seq<char>, post: Seq<char>)
    requires
        is_text(t),
        is_wrapped(d, t, pre, post),
    ensures
        prefix_of(d, t) == width(pre),
{
    reveal_strlit("\u{0}");
    assert(SENTINEL@.len() == 1);
    let s = pre + SENTINEL@ + post;
    let found = offsets(s, SENTINEL@);
    let n = pre.len() as int;
    lemma_offsets_before(s, SENTINEL@, s.len());
    assert(s.take(n) =~= pre);
    assert(s.subrange(n, n + 1) =~= SENTINEL@);
    assert(occurs_at(s, SENTINEL@, n));
    assert(found.contains(width(pre) as int));
    let j = choose|j: int| 0 <= j < found.len() && found[j] == width(pre);
    assert(found.contains(found[0]));
    let c = choose|c: int|
        0 <= c < s.len() && #[trigger] occurs_at(s, SENTINEL@, c) && width(s.take(c)) == found[0];
    if c < n {
        assert(s.subrange(c, c + 1)[0] == SENTINEL@[0]);
        assert(pre[c] == SENTINEL@[0]);
    }
    lemma_width_take(s, n, c);
}

/// A cut at the boundary of two rendered characters is a clean cut of every node.
proof fn lemma_clean_cut(d: Dialect, nodes: Seq<Tree>, i: int, k: int, is_end: bool)
    requires
        reads_faithfully(d, nodes),
        0 <= i < nodes.len(),
        0 <= k <= (d.inline)(nodes).len(),
    ensures
        cuts_cleanly(
            nodes[i],
            cut_of(d, nodes, i, width((d.inline)(nodes).take(k)) as int, is_end),
        ),
{
    let t = nodes[i];
    let s = (d.inline)(nodes);
    if is_text(t) {
        let (pre, post) = choose|pre: Seq<char>, post: Seq<char>| is_wrapped(d, t, pre, post);
        let text = text_of(t);
        lemma_prefix(d, t, pre, post);
        lemma_clean_ends(t);
        let before = one_by_one(d, nodes.take(i));
        let behind = one_by_one(d, nodes.skip(i + 1));
        assert(nodes =~= nodes.take(i) + seq![t] + nodes.skip(i + 1));
        lemma_one_by_one_add(d, nodes.take(i) + seq![t], nodes.skip(i + 1));
        assert((nodes.take(i) + seq![t]).drop_last() =~= nodes.take(i));
        assert(s == before + (pre + text + post) + behind);
        lemma_total_width(d, nodes.take(i));
        lemma_width_add(before, pre);
        let m = (before.len() + pre.len()) as int;
        let e = m + text.len();
        assert(s.take(m) =~= before + pre);
        assert(s.subrange(m, e) =~= text);
        lemma_width_take(s, m, e);
        let at = width(s.take(k)) as int;
        let base = width(s.take(m)) as int;
        if base <= at <= base + width(text) {
            if k < m {
                lemma_width_take(s, k, m);
            }
            if k > e {
                lemma_width_take(s, e, k);
            }
            lemma_width_take(s, m, k);
            assert(s.subrange(m, k) =~= text.take(k - m));
            assert(width(text.take(k - m)) == at - base);
        }
    }
}

/// Up to the node in which a match ends, every node begins before its end.
proof fn lemma_begins_before(d: Dialect, nodes: Seq<Tree>, end: int, i: int)
    requires
        0 <= i <= last_node(d, nodes, end),
        i <= nodes.len(),
        0 < end,
    ensures
        start_of(d, nodes, i) < end,
    decreases i,
{
    lemma_first_up_to(d, nodes, end, 0);
    if i == 0 {
        assert(nodes.take(0) =~= Seq::<Tree>::empty());
    } else {
        lemma_begins_before(d, nodes, end, i - 1);
        assert(!(start_of(d, nodes, i - 1) < end <= start_of(d, nodes, i - 1 + 1)));
    }
}

/// With a faithful reader every match lines up with the nodes of its block.
pub proof fn law_a_faithful_reader_lines_up(
    d: Dialect,
    block: Tree,
    start: int,
    find: Seq<char>,
    replace: Seq<char>,
)
    requires
        reads_faithfully(d, kids(block)),
        offsets((d.inline)(kids(block)), find).contains(start),
        find.len() > 0,
    ensures
        aligned(d, kids(block), start, start + width(find)),
        spliced(d, block, start, find, replace) != Err::<Tree, Failure<Seq<char>, nat>>(
            Failure::Misaligned,
        ),
{
    let nodes = kids(block);
    let s = (d.inline)(nodes);
    let n = nodes.len() as int;
    let end = start + width(find);
    lemma_offsets_before(s, find, s.len());
    let k = choose|k: int|
        0 <= k < s.len() && #[trigger] occurs_at(s, find, k) && width(s.take(k)) == start;
    let e = k + find.len();
    lemma_width_take(s, k, e);
    lemma_width_take(s, e, s.len() as int);
    assert(s.take(s.len() as int) =~= s);
    assert(end == width(s.take(e)));
    lemma_total_width(d, nodes);
    assert(nodes.take(n) =~= nodes);
    lemma_first_past(d, nodes, start, 0);
    lemma_first_up_to(d, nodes, end, 0);
    let (first, last) = (first_node(d, nodes, start), last_node(d, nodes, end));
    if first == n {
        assert(start_of(d, nodes, n - 1 + 1) <= start);
    }
    if last == n {
        lemma_begins_before(d, nodes, end, n);
    }
    lemma_clean_cut(d, nodes, first, k, false);
    lemma_clean_cut(d, nodes, last, e, true);
}

} // verus!
