//! Replacing a span of text inside one block.

use vstd::prelude::*;
use vstd::string::*;

use crate::failure::{Failure, OperationError};
use crate::json::{trees, Json, Tree};
use crate::markdown::{Dialect, Markdown};
use crate::marks::{
    common_marks, is_visible, lemma_filter_take, marked, shared_marks, strip_visible, visible,
    with_marks,
};
use crate::node::{
    append_copies, children, is_a, kids, kind, new_text, node_type, replace_children, text_node,
    with_kids,
};
use crate::spacing::{
    is_blank, leading_space, lemma_leading_space, lemma_trailing_space, split_space,
    trailing_space, trimmed,
};
use crate::spans::{aligned, alone, divided, Parts};
use crate::text::{byte_len, same_text, width};

verus! {

/// A text as inline nodes: one text node, or none for no text.
pub open spec fn literal(text: Seq<char>) -> Seq<Tree> {
    if text.len() == 0 {
        Seq::empty()
    } else {
        seq![text_node(text)]
    }
}

/// Inline Markdown as inline nodes. The white space around it is kept as text.
pub open spec fn inline_result(d: Dialect, markdown: Seq<char>) -> Result<
    Seq<Tree>,
    Failure<Seq<char>, nat>,
> {
    let blocks = kids((d.parse)(trimmed(markdown)));
    if is_blank(markdown) {
        Ok(literal(markdown))
    } else if blocks.len() != 1 || kind(blocks[0]) != Some("paragraph"@) {
        Err(Failure::NotInline)
    } else {
        Ok(
            literal(markdown.take(leading_space(markdown) as int)) + kids(blocks[0]) + literal(
                markdown.skip(markdown.len() - trailing_space(markdown)),
            ),
        )
    }
}

/// The first of the nodes that renders as nothing, from number `i` on; their count if there is
/// none.
pub open spec fn first_hidden(d: Dialect, nodes: Seq<Tree>, i: int) -> int
    decreases nodes.len() - i,
{
    if i >= nodes.len() {
        nodes.len() as int
    } else if alone(d, nodes[i]).len() == 0 {
        i
    } else {
        first_hidden(d, nodes, i + 1)
    }
}

/// The marks that new text takes over from the nodes that a match covers. A mark that all of
/// them carry is kept, unless `find` spells it out.
pub open spec fn inherited_marks(d: Dialect, covered: Seq<Tree>, find: Seq<char>) -> Result<
    Seq<Tree>,
    Failure<Seq<char>, nat>,
> {
    let common = shared_marks(covered);
    if (d.inline)(covered) == find {
        Ok(common.filter(|m: Tree| !visible(m)))
    } else if (d.inline)(covered.map_values(|n: Tree| crate::marks::bared(n, common))) == find {
        Ok(common)
    } else {
        Err(Failure::CutsSyntax { find })
    }
}

/// The nodes that `replace` stands for in a block. Code takes it literally.
pub open spec fn new_nodes(
    d: Dialect,
    block: Tree,
    replace: Seq<char>,
    inherited: Seq<Tree>,
) -> Result<Seq<Tree>, Failure<Seq<char>, nat>> {
    if kind(block) == Some("codeBlock"@) {
        Ok(literal(replace))
    } else {
        match inline_result(d, replace) {
            Ok(nodes) => Ok(nodes.map_values(|n: Tree| marked(n, inherited))),
            Err(f) => Err(f),
        }
    }
}

/// The nodes that take the place of those that a match covers.
pub open spec fn replacement(
    d: Dialect,
    block: Tree,
    covered: Seq<Tree>,
    find: Seq<char>,
    replace: Seq<char>,
) -> Result<Seq<Tree>, Failure<Seq<char>, nat>> {
    let hidden = first_hidden(d, covered, 0);
    if hidden < covered.len() {
        Err(Failure::HiddenNode { kind: kind(covered[hidden]) })
    } else {
        match inherited_marks(d, covered, find) {
            Ok(inherited) => new_nodes(d, block, replace, inherited),
            Err(f) => Err(f),
        }
    }
}

/// The block with `replace` in place of `find`, which starts at byte `start` of its Markdown.
pub open spec fn spliced(
    d: Dialect,
    block: Tree,
    start: int,
    find: Seq<char>,
    replace: Seq<char>,
) -> Result<Tree, Failure<Seq<char>, nat>> {
    let end = start + width(find);
    let parts = divided(d, kids(block), start, end);
    if !aligned(d, kids(block), start, end) {
        Err(Failure::Misaligned)
    } else {
        match replacement(d, block, parts.covered, find, replace) {
            Ok(new) => Ok(with_kids(block, parts.before + new + parts.after)),
            Err(f) => Err(f),
        }
    }
}

/// Adds a text as inline nodes.
fn add_literal(out: &mut Vec<Json>, text: &str)
    ensures
        trees(final(out)@) == trees(old(out)@) + literal(text@),
{
    let ghost before = out@;
    if !text.is_empty() {
        out.push(new_text(text));
        assert(trees(out@) =~= trees(before) + literal(text@));
    } else {
        assert(trees(out@) =~= trees(before) + literal(text@));
    }
}

/// Adds values to the end of others.
pub fn add_all(out: &mut Vec<Json>, more: &mut Vec<Json>)
    ensures
        trees(final(out)@) == trees(old(out)@) + trees(old(more)@),
{
    let ghost before = out@;
    let ghost rest = more@;
    out.append(more);
    assert(trees(out@) =~= trees(before) + trees(rest));
}

/// The marks that do not show.
fn invisible(common: &Vec<Json>) -> (r: Vec<Json>)
    ensures
        trees(r@) == trees(common@).filter(|m: Tree| !visible(m)),
{
    let ghost all = trees(common@);
    let ghost keep = |m: Tree| !visible(m);
    let mut r: Vec<Json> = Vec::new();
    let mut i: usize = 0;
    proof {
        assert(all.take(0) =~= Seq::<Tree>::empty());
        assert(all.take(0).filter(keep) =~= Seq::<Tree>::empty()) by {
            reveal(Seq::filter);
        }
        assert(trees(r@) =~= Seq::<Tree>::empty());
    }
    while i < common.len()
        invariant
            i <= common@.len(),
            all == trees(common@),
            keep == (|m: Tree| !visible(m)),
            trees(r@) == all.take(i as int).filter(keep),
        decreases common@.len() - i,
    {
        let ghost before = r@;
        assert(all[i as int] == common@[i as int]@);
        if !is_visible(&common[i]) {
            r.push(common[i].clone());
            assert(trees(r@) =~= trees(before).push(all[i as int]));
        }
        proof {
            lemma_filter_take(all, keep, i as int);
        }
        i = i + 1;
    }
    assert(all.take(all.len() as int) =~= all);
    r
}

/// A result as mathematics.
pub open spec fn nodes_view(r: Result<Vec<Json>, OperationError>) -> Result<
    Seq<Tree>,
    Failure<Seq<char>, nat>,
> {
    match r {
        Ok(v) => Ok(trees(v@)),
        Err(e) => Err(e@),
    }
}

/// A result as mathematics.
pub open spec fn node_view(r: Result<Json, OperationError>) -> Result<
    Tree,
    Failure<Seq<char>, nat>,
> {
    match r {
        Ok(v) => Ok(v@),
        Err(e) => Err(e@),
    }
}

impl<I: Fn(&[Json]) -> String, B: Fn(&[Json]) -> String, P: Fn(&str) -> Json> Markdown<I, B, P> {
    /// Inline Markdown as inline nodes. Leading and trailing white space is kept.
    pub fn inline_nodes(&self, markdown: &str) -> (r: Result<Vec<Json>, OperationError>)
        requires
            self.well_defined(),
        ensures
            nodes_view(r) == inline_result(self.dialect(), markdown@),
    {
        let (lead, core, trail): (String, String, String) = split_space(markdown);
        let mut nodes: Vec<Json> = Vec::new();
        proof {
            lemma_leading_space(markdown@);
            lemma_trailing_space(markdown@);
            assert(trees(nodes@) =~= Seq::<Tree>::empty());
        }
        if core.as_str().is_empty() {
            add_literal(&mut nodes, markdown);
            assert(trees(nodes@) =~= literal(markdown@));
            return Ok(nodes);
        }
        let parsed: Json = self.markdown_to_prosemirror(core.as_str());
        let blocks: &[Json] = children(&parsed);
        if blocks.len() != 1 {
            return Err(Failure::NotInline);
        }
        assert(trees(blocks@)[0] == blocks@[0]@);
        if !is_a(&blocks[0], "paragraph") {
            return Err(Failure::NotInline);
        }
        add_literal(&mut nodes, lead.as_str());
        let inner: &[Json] = children(&blocks[0]);
        append_copies(&mut nodes, inner, 0, inner.len());
        add_literal(&mut nodes, trail.as_str());
        assert(trees(nodes@) =~= literal(lead@) + trees(inner@) + literal(trail@));
        Ok(nodes)
    }

    /// The number of the first node that renders as nothing.
    fn find_hidden(&self, nodes: &Vec<Json>) -> (r: usize)
        requires
            self.well_defined(),
        ensures
            r == first_hidden(self.dialect(), trees(nodes@), 0),
            r <= nodes@.len(),
    {
        let ghost d = self.dialect();
        let ghost all = trees(nodes@);
        let mut i: usize = 0;
        while i < nodes.len()
            invariant
                i <= nodes@.len(),
                self.well_defined(),
                d == self.dialect(),
                all == trees(nodes@),
                first_hidden(d, all, i as int) == first_hidden(d, all, 0),
            decreases nodes@.len() - i,
        {
            let shown: String = self.extract_text(std::slice::from_ref(&nodes[i]));
            assert(trees(seq![nodes@[i as int]]) =~= seq![all[i as int]]);
            if shown.as_str().is_empty() {
                return i;
            }
            i = i + 1;
        }
        i
    }

    /// The marks that new text takes over from the nodes that a match covers.
    fn inherit(&self, covered: &Vec<Json>, find: &str) -> (r: Result<Vec<Json>, OperationError>)
        requires
            self.well_defined(),
        ensures
            nodes_view(r) == inherited_marks(self.dialect(), trees(covered@), find@),
    {
        let common: Vec<Json> = common_marks(covered.as_slice());
        let shown: String = self.extract_text(covered.as_slice());
        if same_text(shown.as_str(), find) {
            return Ok(invisible(&common));
        }
        let bare: Vec<Json> = strip_visible(covered.as_slice(), common.as_slice());
        let plain: String = self.extract_text(bare.as_slice());
        if same_text(plain.as_str(), find) {
            return Ok(common);
        }
        Err(Failure::CutsSyntax { find: find.to_owned() })
    }

    /// The nodes that take the place of those that a match covers.
    pub fn replace_nodes(
        &self,
        block: &Json,
        covered: &Vec<Json>,
        find: &str,
        replace: &str,
    ) -> (r: Result<Vec<Json>, OperationError>)
        requires
            self.well_defined(),
        ensures
            nodes_view(r) == replacement(
                self.dialect(),
                block@,
                trees(covered@),
                find@,
                replace@,
            ),
    {
        let hidden: usize = self.find_hidden(covered);
        if hidden < covered.len() {
            let node: &Json = &covered[hidden];
            assert(trees(covered@)[hidden as int] == node@);
            let kind: Option<String> = match node_type(node) {
                Some(name) => Some(name.to_owned()),
                None => None,
            };
            return Err(Failure::HiddenNode { kind });
        }
        let inherited: Vec<Json> = match self.inherit(covered, find) {
            Ok(marks) => marks,
            Err(f) => {
                return Err(f);
            },
        };
        if is_a(block, "codeBlock") {
            let mut nodes: Vec<Json> = Vec::new();
            assert(trees(nodes@) =~= Seq::<Tree>::empty());
            add_literal(&mut nodes, replace);
            assert(trees(nodes@) =~= literal(replace@));
            return Ok(nodes);
        }
        match self.inline_nodes(replace) {
            Ok(nodes) => Ok(with_marks(nodes, inherited.as_slice())),
            Err(f) => Err(f),
        }
    }

    /// Replace `find`, which starts at byte `start` of the block's rendered Markdown, with
    /// `replace`. Text nodes are split at the match boundaries; nodes outside stay untouched.
    pub fn splice_inline(&self, block: &Json, start: usize, find: &str, replace: &str) -> (r:
        Result<Json, OperationError>)
        requires
            self.well_defined(),
            find@.len() > 0,
            start + width(find@) <= usize::MAX,
        ensures
            node_view(r) == spliced(self.dialect(), block@, start as int, find@, replace@),
    {
        let nodes: &[Json] = children(block);
        let end: usize = start + byte_len(find);
        proof {
            crate::text::lemma_width_take(find@, 0, find@.len() as int);
            assert(find@.take(find@.len() as int) =~= find@);
            assert(find@.take(0) =~= Seq::<char>::empty());
        }
        let parts: Parts = match self.divide(nodes, start, end) {
            Some(parts) => parts,
            None => {
                return Err(Failure::Misaligned);
            },
        };
        let Parts { before, covered, mut after } = parts;
        let mut new: Vec<Json> = match self.replace_nodes(block, &covered, find, replace) {
            Ok(nodes) => nodes,
            Err(f) => {
                return Err(f);
            },
        };
        let mut content: Vec<Json> = before;
        add_all(&mut content, &mut new);
        add_all(&mut content, &mut after);
        Ok(replace_children(block, content))
    }
}

} // verus!
