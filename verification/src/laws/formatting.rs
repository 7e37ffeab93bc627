//! New text: what is parsed stays as it is written, and takes over the marks that cover the match.

use vstd::prelude::*;

use crate::failure::Failure;
use crate::inline::{first_hidden, inherited_marks, inline_result, literal, replacement, spliced};
use crate::json::Tree;
use crate::laws::spans::lemma_first_hidden;
use crate::markdown::Dialect;
use crate::marks::{bared, has_kind, marked, shared_marks, visible};
use crate::node::{kids, kind, marks, with_kids};
use crate::operations::lemma_kinds_differ;
use crate::spacing::{lemma_leading_space_is, lemma_trailing_space_is, trimmed, white_space};
use crate::spans::{aligned, alone, divided};
use crate::text::width;

verus! {

/// Each of some nodes carries the mark, and there is one.
pub open spec fn on_each(nodes: Seq<Tree>, mark: Tree) -> bool {
    nodes.len() > 0 && forall|i: int|
        0 <= i < nodes.len() ==> (#[trigger] nodes[i]).list_field("marks"@).contains(mark)
}

/// The filtered items are those that pass.
proof fn lemma_filter_items<A>(s: Seq<A>, f: spec_fn(A) -> bool, x: A)
    ensures
        s.filter(f).contains(x) <==> s.contains(x) && f(x),
    decreases s.len(),
{
    reveal(Seq::filter);
    if s.len() > 0 {
        let rest = s.drop_last();
        let kept = rest.filter(f);
        lemma_filter_items(rest, f, x);
        assert(s =~= rest.push(s.last()));
        if s.contains(x) {
            let i = choose|i: int| 0 <= i < s.len() && s[i] == x;
            if i < rest.len() {
                assert(rest[i] == x);
            }
        }
        if rest.contains(x) {
            let i = choose|i: int| 0 <= i < rest.len() && rest[i] == x;
            assert(s[i] == x);
        }
        assert(s[s.len() - 1] == s.last());
        if f(s.last()) {
            let now = kept.push(s.last());
            assert(s.filter(f) == now);
            if now.contains(x) {
                let i = choose|i: int| 0 <= i < now.len() && now[i] == x;
                if i < kept.len() {
                    assert(kept[i] == x);
                }
            }
            if kept.contains(x) {
                let i = choose|i: int| 0 <= i < kept.len() && kept[i] == x;
                assert(now[i] == x);
            }
            assert(now[kept.len() as int] == s.last());
        }
    }
}

/// The marks that nodes share are the ones that each of them carries. One node shares all its
/// marks with itself, in their order, and a further node takes away those that it does not carry.
pub proof fn law_shared_marks_are_on_each(nodes: Seq<Tree>, t: Tree, mark: Tree)
    ensures
        shared_marks(nodes).contains(mark) <==> on_each(nodes, mark),
        shared_marks(seq![t]) == marks(t),
        nodes.len() > 0 ==> shared_marks(nodes.push(t)) == shared_marks(nodes).filter(
            |m: Tree| marks(t).contains(m),
        ),
{
    let pass = |m: Tree| crate::marks::on_all(nodes, m);
    if nodes.len() > 0 {
        lemma_filter_items(marks(nodes[0]), pass, mark);
        if on_each(nodes, mark) {
            assert(nodes[0].list_field("marks"@).contains(mark));
            assert forall|i: int| 0 <= i < nodes.len() implies (#[trigger] marks(
                nodes[i],
            )).contains(mark) by {
                assert(nodes[i].list_field("marks"@).contains(mark));
            }
        }
        if shared_marks(nodes).contains(mark) {
            assert forall|i: int| 0 <= i < nodes.len() implies (#[trigger] nodes[i]).list_field(
                "marks"@,
            ).contains(mark) by {
                assert(marks(nodes[i]).contains(mark));
            }
        }
        let longer = nodes.push(t);
        let both = |m: Tree| crate::marks::on_all(longer, m);
        let more = |m: Tree| marks(t).contains(m);
        assert forall|m: Tree| #[trigger] both(m) <==> pass(m) && more(m) by {
            if both(m) {
                assert forall|i: int| 0 <= i < nodes.len() implies (#[trigger] marks(
                    nodes[i],
                )).contains(m) by {
                    assert(marks(longer[i]).contains(m));
                }
                assert(marks(longer[nodes.len() as int]).contains(m));
            }
            if pass(m) && more(m) {
                assert forall|i: int| 0 <= i < longer.len() implies (#[trigger] marks(
                    longer[i],
                )).contains(m) by {
                    if i < nodes.len() {
                        assert(marks(nodes[i]).contains(m));
                    }
                }
            }
        }
        lemma_filter_twice(marks(nodes[0]), pass, more, both);
        assert(longer[0] == nodes[0]);
    }
    let one = seq![t];
    let all = |m: Tree| crate::marks::on_all(one, m);
    assert forall|i: int| 0 <= i < marks(t).len() implies all(#[trigger] marks(t)[i]) by {
        assert(marks(t).contains(marks(t)[i]));
    }
    crate::laws::rows::lemma_filter_all(marks(t), all);
}

/// Two filters in turn are one.
proof fn lemma_filter_twice<A>(
    s: Seq<A>,
    f: spec_fn(A) -> bool,
    g: spec_fn(A) -> bool,
    both: spec_fn(A) -> bool,
)
    requires
        forall|x: A| #[trigger] both(x) <==> f(x) && g(x),
    ensures
        s.filter(both) == s.filter(f).filter(g),
    decreases s.len(),
{
    reveal(Seq::filter);
    if s.len() > 0 {
        let rest = s.drop_last();
        lemma_filter_twice(rest, f, g, both);
        if f(s.last()) {
            assert(rest.filter(f).push(s.last()).drop_last() =~= rest.filter(f));
        }
    } else {
        assert(s.filter(f).filter(g) =~= s.filter(both));
    }
}

/// Filters that agree on the items keep the same.
proof fn lemma_filter_same<A>(s: Seq<A>, f: spec_fn(A) -> bool, g: spec_fn(A) -> bool)
    requires
        forall|i: int| 0 <= i < s.len() ==> f(#[trigger] s[i]) == g(s[i]),
    ensures
        s.filter(f) == s.filter(g),
    decreases s.len(),
{
    reveal(Seq::filter);
    if s.len() > 0 {
        let rest = s.drop_last();
        assert forall|i: int| 0 <= i < rest.len() implies f(#[trigger] rest[i]) == g(rest[i]) by {
            assert(rest[i] == s[i]);
        }
        lemma_filter_same(rest, f, g);
        assert(f(s[s.len() - 1]) == g(s[s.len() - 1]));
    }
}

/// A bare node lacks the marks that show and that are among the given ones, and keeps every other
/// mark and every other field.
pub proof fn law_bare_nodes_lack_shared_visible_marks(node: Tree, common: Seq<Tree>, mark: Tree)
    ensures
        marks(bared(node, common)).contains(mark) <==> marks(node).contains(mark) && !(visible(
            mark,
        ) && common.contains(mark)),
        marks(bared(node, common)) == marks(node).filter(
            |m: Tree| !(visible(m) && common.contains(m)),
        ),
        forall|key: Seq<char>| key != "marks"@ ==> #[trigger] bared(node, common).field(key)
            == node.field(key),
        (forall|m: Tree| #[trigger] marks(node).contains(m) ==> !(visible(m) && common.contains(m)))
            ==> bared(node, common) == node,
        !(node.field("marks"@) matches Some(Tree::Array(_))) ==> bared(node, common) == node,
{
    let own = marks(node);
    let keep = |m: Tree| !(visible(m) && common.contains(m));
    lemma_filter_items(own, keep, mark);
    if own.len() == 0 {
        own.lemma_filter_len(keep);
        assert(own.filter(keep) =~= own);
    }
    if node.field("marks"@) matches Some(Tree::Array(_)) {
        if forall|m: Tree| #[trigger] own.contains(m) ==> !(visible(m) && common.contains(m)) {
            assert forall|i: int| 0 <= i < own.len() implies keep(#[trigger] own[i]) by {
                assert(own.contains(own[i]));
            }
            crate::laws::rows::lemma_filter_all(own, keep);
            let m = node->Object_0;
            assert(m["marks"@] == Tree::Array(own));
            assert(m.insert("marks"@, Tree::Array(own)) =~= m);
        }
    }
}

/// The text nodes of a text: one that holds it, and none for no text.
pub proof fn law_a_text_is_one_bare_node(text: Seq<char>)
    ensures
        literal(Seq::empty()) == Seq::<Tree>::empty(),
        text.len() > 0 ==> literal(text) == seq![
            Tree::Object(
                map!["type"@ => Tree::String("text"@), "text"@ => Tree::String(text)],
            ),
        ],
{
    crate::laws::values::law_a_new_text_node_is_bare(text);
}

/// Inline Markdown between white space: what stands inside is parsed, and has to be one
/// paragraph; the white space is kept as text around the nodes of the paragraph.
pub proof fn law_inline_markdown_is_parsed(
    d: Dialect,
    lead: Seq<char>,
    core: Seq<char>,
    trail: Seq<char>,
)
    requires
        forall|i: int| 0 <= i < lead.len() ==> white_space(#[trigger] lead[i]),
        forall|i: int| 0 <= i < trail.len() ==> white_space(#[trigger] trail[i]),
        core.len() > 0,
        !white_space(core[0]),
        !white_space(core[core.len() - 1]),
    ensures
        ({
            let blocks = (d.parse)(core).list_field("content"@);
            let r = inline_result(d, lead + core + trail);
            if blocks.len() == 1 && blocks[0].text_field("type"@) == Some("paragraph"@) {
                r == Ok::<Seq<Tree>, Failure<Seq<char>, nat>>(
                    literal(lead) + blocks[0].list_field("content"@) + literal(trail),
                )
            } else {
                r == Err::<Seq<Tree>, Failure<Seq<char>, nat>>(Failure::NotInline)
            }
        }),
        inline_result(d, lead) == Ok::<Seq<Tree>, Failure<Seq<char>, nat>>(literal(lead)),
{
    let s = lead + core + trail;
    assert forall|i: int| 0 <= i < lead.len() implies white_space(#[trigger] s[i]) by {
        assert(s[i] == lead[i]);
    }
    assert(s[lead.len() as int] == core[0]);
    lemma_leading_space_is(s, lead.len());
    assert forall|i: int| s.len() - trail.len() <= i < s.len() implies white_space(
        #[trigger] s[i],
    ) by {
        assert(s[i] == trail[i - lead.len() - core.len()]);
    }
    assert(s[s.len() - trail.len() - 1] == core[core.len() - 1]);
    lemma_trailing_space_is(s, trail.len());
    assert(!crate::spacing::is_blank(s)) by {
        assert(!white_space(s[lead.len() as int]));
    }
    assert(trimmed(s) =~= core);
    assert(s.take(lead.len() as int) =~= lead);
    assert(s.skip(s.len() - trail.len()) =~= trail);
}

/// The marks that new text takes over, as a set.
proof fn lemma_inherited(d: Dialect, covered: Seq<Tree>, find: Seq<char>, mark: Tree)
    requires
        inherited_marks(d, covered, find) is Ok,
    ensures
        inherited_marks(d, covered, find)->Ok_0.contains(mark) <==> on_each(covered, mark) && (
        !visible(mark) || (d.inline)(covered) != find),
{
    law_shared_marks_are_on_each(covered, mark, mark);
    lemma_filter_items(shared_marks(covered), |m: Tree| !visible(m), mark);
}

/// A node of the replacement in its place in the edited block: it keeps every field but its
/// marks, and a node that is no text node keeps those too. A text node keeps its own marks first
/// and in their order. Behind them come, and nothing else, the marks that every covered node
/// carries, but for those of a type that the node has itself and those that `find` spells out,
/// in the order in which the covered nodes have them.
pub proof fn law_new_text_keeps_its_own_marks(
    d: Dialect,
    block: Tree,
    start: int,
    find: Seq<char>,
    replace: Seq<char>,
    i: int,
)
    requires
        spliced(d, block, start, find, replace) is Ok,
        block.text_field("type"@) != Some("codeBlock"@),
        0 <= i < inline_result(d, replace)->Ok_0.len(),
    ensures
        ({
            let parts = divided(d, kids(block), start, start + width(find));
            let nodes = inline_result(d, replace)->Ok_0;
            let all = kids(spliced(d, block, start, find, replace)->Ok_0);
            let (old, new) = (nodes[i], all[parts.before.len() + i]);
            let (own, now) = (marks(old), marks(new));
            &&& all.len() == parts.before.len() + nodes.len() + parts.after.len()
            &&& forall|key: Seq<char>| key != "marks"@ ==> #[trigger] new.field(key) == old.field(
                key,
            )
            &&& old.text_field("type"@) != Some("text"@) ==> new == old
            &&& own.len() <= now.len() && now.take(own.len() as int) == own
            &&& old.text_field("type"@) == Some("text"@) ==> now.skip(own.len() as int)
                == shared_marks(parts.covered).filter(
                |m: Tree| now.skip(own.len() as int).contains(m),
            )
            &&& forall|m: Tree| #[trigger]
                now.skip(own.len() as int).contains(m) <==> {
                    &&& old.text_field("type"@) == Some("text"@)
                    &&& on_each(parts.covered, m)
                    &&& !visible(m) || (d.inline)(parts.covered) != find
                    &&& forall|j: int|
                        0 <= j < own.len() ==> (#[trigger] own[j]).text_field("type"@)
                            != m.text_field("type"@)
                }
        }),
{
    let parts = divided(d, kids(block), start, start + width(find));
    let nodes = inline_result(d, replace)->Ok_0;
    let inherited = inherited_marks(d, parts.covered, find)->Ok_0;
    let made = nodes.map_values(|n: Tree| marked(n, inherited));
    let content = parts.before + made + parts.after;
    assert(kids(with_kids(block, content)) == content);
    let (old, new) = (nodes[i], marked(nodes[i], inherited));
    assert(content[parts.before.len() + i] == new);
    let (own, now) = (marks(old), marks(new));
    let fresh = |m: Tree| !has_kind(own, m);
    let extra = inherited.filter(fresh);
    if inherited.len() == 0 {
        assert(extra =~= Seq::<Tree>::empty()) by {
            inherited.lemma_filter_len(fresh);
        }
    }
    if kind(old) == Some("text"@) {
        assert(now =~= own + extra) by {
            if inherited.len() == 0 {
                assert(own + extra =~= own);
            }
        }
        assert(now.skip(own.len() as int) =~= extra);
        let shared = shared_marks(parts.covered);
        let shows = |m: Tree| !visible(m);
        let listed = |m: Tree| extra.contains(m);
        assert forall|k: int| 0 <= k < shared.len() implies (listed(#[trigger] shared[k])
            <==> fresh(shared[k]) && ((d.inline)(parts.covered) != find || shows(shared[k]))) by {
            lemma_inherited(d, parts.covered, find, shared[k]);
            law_shared_marks_are_on_each(parts.covered, old, shared[k]);
            assert(shared.contains(shared[k]));
            lemma_filter_items(inherited, fresh, shared[k]);
        }
        if (d.inline)(parts.covered) == find {
            let both = |m: Tree| shows(m) && fresh(m);
            lemma_filter_twice(shared, shows, fresh, both);
            lemma_filter_same(shared, both, listed);
        } else {
            lemma_filter_same(shared, fresh, listed);
        }
    } else {
        assert(now.skip(own.len() as int) =~= Seq::<Tree>::empty());
    }
    assert(now.take(own.len() as int) =~= own);
    assert forall|m: Tree| #[trigger] now.skip(own.len() as int).contains(m) <==> {
        &&& old.text_field("type"@) == Some("text"@)
        &&& on_each(parts.covered, m)
        &&& !visible(m) || (d.inline)(parts.covered) != find
        &&& forall|j: int|
            0 <= j < own.len() ==> (#[trigger] own[j]).text_field("type"@) != m.text_field("type"@)
    } by {
        lemma_inherited(d, parts.covered, find, m);
        lemma_filter_items(inherited, fresh, m);
        if forall|j: int|
            0 <= j < own.len() ==> (#[trigger] own[j]).text_field("type"@) != m.text_field("type"@) {
            assert forall|j: int| 0 <= j < own.len() implies #[trigger] kind(own[j]) != kind(m) by {
                assert(own[j].text_field("type"@) != m.text_field("type"@));
            }
            assert(fresh(m));
        } else {
            let j = choose|j: int|
                0 <= j < own.len() && (#[trigger] own[j]).text_field("type"@) == m.text_field(
                    "type"@,
                );
            assert(kind(own[j]) == kind(m));
            assert(!fresh(m));
        }
    }
}

/// A span that lines up is replaced exactly where no covered node is rendered as nothing, the
/// covered nodes render as `find`, as they are or without the visible marks that they share, and
/// the block is code or the new Markdown is inline. Otherwise the first of these that fails is
/// the error.
pub proof fn law_when_a_span_is_replaced(
    d: Dialect,
    block: Tree,
    start: int,
    find: Seq<char>,
    replace: Seq<char>,
)
    requires
        aligned(d, kids(block), start, start + width(find)),
    ensures
        ({
            let covered = divided(d, kids(block), start, start + width(find)).covered;
            let bare = covered.map_values(|n: Tree| bared(n, shared_marks(covered)));
            let r = spliced(d, block, start, find, replace);
            let shows = forall|i: int|
                0 <= i < covered.len() ==> alone(d, #[trigger] covered[i]).len() > 0;
            let whole = (d.inline)(covered) == find || (d.inline)(bare) == find;
            let code = block.text_field("type"@) == Some("codeBlock"@);
            &&& r is Ok <==> shows && whole && (code || inline_result(d, replace) is Ok)
            &&& !shows ==> exists|i: int|
                0 <= i < covered.len() && alone(d, covered[i]).len() == 0 && (forall|j: int|
                    0 <= j < i ==> alone(d, #[trigger] covered[j]).len() > 0) && r == Err::<
                    Tree,
                    Failure<Seq<char>, nat>,
                >(Failure::HiddenNode { kind: (#[trigger] covered[i]).text_field("type"@) })
            &&& shows && !whole ==> r == Err::<Tree, Failure<Seq<char>, nat>>(
                Failure::CutsSyntax { find },
            )
            &&& shows && whole && !code && inline_result(d, replace) is Err ==> r == Err::<
                Tree,
                Failure<Seq<char>, nat>,
            >(inline_result(d, replace)->Err_0)
        }),
{
    let covered = divided(d, kids(block), start, start + width(find)).covered;
    lemma_first_hidden(d, covered, 0);
    let hidden = first_hidden(d, covered, 0);
    if hidden < covered.len() {
        assert(alone(d, covered[hidden]).len() == 0);
        assert(kind(covered[hidden]) == covered[hidden].text_field("type"@));
    }
}

/// A span that does not line up is not replaced.
pub proof fn law_a_span_that_does_not_line_up_fails(
    d: Dialect,
    block: Tree,
    start: int,
    find: Seq<char>,
    replace: Seq<char>,
)
    requires
        !aligned(d, kids(block), start, start + width(find)),
    ensures
        spliced(d, block, start, find, replace) == Err::<Tree, Failure<Seq<char>, nat>>(
            Failure::Misaligned,
        ),
{
}

/// The block around a replaced span: the nodes before and behind the match stay in place, and new
/// text in code is literal.
pub proof fn law_nodes_around_a_span_stay_in_place(
    d: Dialect,
    block: Tree,
    start: int,
    find: Seq<char>,
    replace: Seq<char>,
)
    requires
        spliced(d, block, start, find, replace) is Ok,
    ensures
        ({
            let parts = divided(d, kids(block), start, start + width(find));
            let all = kids(spliced(d, block, start, find, replace)->Ok_0);
            let (n, k) = (parts.before.len() as int, parts.after.len() as int);
            &&& n + k <= all.len()
            &&& all.take(n) == parts.before
            &&& all.skip(all.len() - k) == parts.after
            &&& block.text_field("type"@) == Some("codeBlock"@) ==> all.subrange(n, all.len() - k)
                == literal(replace)
        }),
{
    let parts = divided(d, kids(block), start, start + width(find));
    let made = replacement(d, block, parts.covered, find, replace)->Ok_0;
    let content = parts.before + made + parts.after;
    lemma_kinds_differ();
    assert(kids(with_kids(block, content)) == content);
    assert(content.take(parts.before.len() as int) =~= parts.before);
    assert(content.skip(content.len() - parts.after.len()) =~= parts.after);
    assert(content.subrange(
        parts.before.len() as int,
        content.len() - parts.after.len(),
    ) =~= made);
}

} // verus!
