//! Where the nodes of a block sit in its Markdown, and the parts into which a match cuts them.

use vstd::prelude::*;
use vstd::string::*;

use crate::json::{trees, Json, Tree};
use crate::markdown::{Dialect, Markdown};
use crate::node::{append_copies, is_a, kind};
use crate::text::{byte_len, find_all, is_offset, offsets, slice, slice_text, width};

verus! {

/// The character that stands for a node's text where only the syntax before it matters.
pub const SENTINEL: &'static str = "\u{0}";

/// A text node: one that can be cut. Every other node is an atom.
pub open spec fn is_text(t: Tree) -> bool {
    kind(t) == Some("text"@) && t.text_field("text"@) is Some
}

/// The text of a text node.
pub open spec fn text_of(t: Tree) -> Seq<char> {
    t.text_field("text"@)->0
}

/// One node as Markdown.
pub open spec fn alone(d: Dialect, t: Tree) -> Seq<char> {
    (d.inline)(seq![t])
}

/// How many bytes of syntax a text node's Markdown has before its text.
pub open spec fn prefix_of(d: Dialect, t: Tree) -> int {
    let found = offsets(alone(d, t.with("text"@, Tree::String(SENTINEL@))), SENTINEL@);
    if is_text(t) && found.len() > 0 {
        found[0]
    } else {
        0
    }
}

/// How far a cut can go into a node: over the bytes of a text, or over an atom.
pub open spec fn length_of(t: Tree) -> int {
    if is_text(t) {
        width(text_of(t)) as int
    } else {
        1
    }
}

/// How many bytes the nodes take, each rendered alone.
pub open spec fn total_width(d: Dialect, nodes: Seq<Tree>) -> nat
    decreases nodes.len(),
{
    if nodes.len() == 0 {
        0
    } else {
        total_width(d, nodes.drop_last()) + width(alone(d, nodes.last()))
    }
}

/// Where the rendering of the node with number `i` begins.
pub open spec fn start_of(d: Dialect, nodes: Seq<Tree>, i: int) -> int {
    total_width(d, nodes.take(i)) as int
}

/// A Markdown offset as an offset inside a text that begins at `text_start`.
pub open spec fn clamped(at: int, text_start: int, len: int) -> int {
    if at < text_start {
        0
    } else if at > text_start + len {
        len
    } else {
        at - text_start
    }
}

/// Where a child's rendering sits in the block's Markdown. `len` is the text length for a
/// text node, 1 for an atom (mention, hard break).
#[derive(Debug, Clone, Copy)]
pub struct Span {
    pub start: usize,
    pub end: usize,
    pub prefix: usize,
    pub len: usize,
    pub is_text: bool,
}

impl Span {
    /// The span of the node with number `i`.
    pub open spec fn is_of(self, d: Dialect, nodes: Seq<Tree>, i: int) -> bool {
        &&& self.start == start_of(d, nodes, i)
        &&& self.end == start_of(d, nodes, i + 1)
        &&& self.prefix == prefix_of(d, nodes[i])
        &&& self.len == length_of(nodes[i])
        &&& self.is_text == is_text(nodes[i])
    }

    /// A Markdown offset as an offset inside the node. An atom lies before the cut or after it.
    pub open spec fn cut_spec(self, at: int, is_end: bool) -> int {
        if self.is_text {
            clamped(at, self.start + self.prefix, self.len as int)
        } else if is_end {
            if at >= self.end {
                1
            } else {
                0
            }
        } else {
            if at > self.start {
                1
            } else {
                0
            }
        }
    }

    /// Map a Markdown byte offset to an offset inside this node (clamped to the node).
    pub fn cut(&self, at: usize, is_end: bool) -> (r: usize)
        ensures
            r == self.cut_spec(at as int, is_end),
    {
        if self.is_text {
            if at < self.start || at - self.start < self.prefix {
                0
            } else {
                let inside: usize = at - self.start - self.prefix;
                if inside > self.len {
                    self.len
                } else {
                    inside
                }
            }
        } else if is_end {
            if at >= self.end {
                1
            } else {
                0
            }
        } else {
            if at > self.start {
                1
            } else {
                0
            }
        }
    }
}

/// The cut that a Markdown offset makes in the node with number `i`.
pub open spec fn cut_of(d: Dialect, nodes: Seq<Tree>, i: int, at: int, is_end: bool) -> int {
    let t = nodes[i];
    if is_text(t) {
        clamped(at, start_of(d, nodes, i) + prefix_of(d, t), length_of(t))
    } else if is_end {
        if at >= start_of(d, nodes, i + 1) {
            1
        } else {
            0
        }
    } else {
        if at > start_of(d, nodes, i) {
            1
        } else {
            0
        }
    }
}

/// The number, from `i` on, of the first node whose rendering goes on after `at`; the count of
/// the nodes if there is none.
pub open spec fn first_past(d: Dialect, nodes: Seq<Tree>, at: int, i: int) -> int
    decreases nodes.len() - i,
{
    if i >= nodes.len() {
        nodes.len() as int
    } else if at < start_of(d, nodes, i + 1) {
        i
    } else {
        first_past(d, nodes, at, i + 1)
    }
}

/// The number, from `i` on, of the first node that begins before `at` and goes up to it or on
/// after it; the count of the nodes if there is none.
pub open spec fn first_up_to(d: Dialect, nodes: Seq<Tree>, at: int, i: int) -> int
    decreases nodes.len() - i,
{
    if i >= nodes.len() {
        nodes.len() as int
    } else if start_of(d, nodes, i) < at <= start_of(d, nodes, i + 1) {
        i
    } else {
        first_up_to(d, nodes, at, i + 1)
    }
}

/// The part of a node from `lo` to `hi`: a text slice with the same marks, or the whole atom.
pub open spec fn part(t: Tree, lo: int, hi: int) -> Seq<Tree> {
    if lo >= hi {
        Seq::empty()
    } else if is_text(t) && !(lo == 0 && hi == length_of(t)) {
        seq![t.with("text"@, Tree::String(slice(text_of(t), lo, hi)))]
    } else {
        seq![t]
    }
}

/// A cut at `at` falls between two characters of a text node. An atom is never cut.
pub open spec fn cuts_cleanly(t: Tree, at: int) -> bool {
    is_text(t) ==> is_offset(text_of(t), at)
}

/// How a match divides the nodes of a block.
pub struct Division {
    pub before: Seq<Tree>,
    pub covered: Seq<Tree>,
    pub after: Seq<Tree>,
}

/// The number of the node in which a match that starts at `start` begins.
pub open spec fn first_node(d: Dialect, nodes: Seq<Tree>, start: int) -> int {
    first_past(d, nodes, start, 0)
}

/// The number of the node in which a match that ends at `end` ends.
pub open spec fn last_node(d: Dialect, nodes: Seq<Tree>, end: int) -> int {
    first_up_to(d, nodes, end, 0)
}

/// Where the first node is cut.
pub open spec fn start_cut(d: Dialect, nodes: Seq<Tree>, start: int) -> int {
    cut_of(d, nodes, first_node(d, nodes, start), start, false)
}

/// Where the last node is cut.
pub open spec fn end_cut(d: Dialect, nodes: Seq<Tree>, start: int, end: int) -> int {
    let last = last_node(d, nodes, end);
    let cut = cut_of(d, nodes, last, end, true);
    let lo = start_cut(d, nodes, start);
    if first_node(d, nodes, start) == last && cut < lo {
        lo
    } else {
        cut
    }
}

/// The match begins in a node and ends in that node or a later one, and cuts texts between
/// two characters.
pub open spec fn aligned(d: Dialect, nodes: Seq<Tree>, start: int, end: int) -> bool {
    let first = first_node(d, nodes, start);
    let last = last_node(d, nodes, end);
    &&& total_width(d, nodes) <= usize::MAX
    &&& first < nodes.len()
    &&& last < nodes.len()
    &&& cuts_cleanly(nodes[first], start_cut(d, nodes, start))
    &&& cuts_cleanly(nodes[last], end_cut(d, nodes, start, end))
}

/// The nodes before the match, in it and after it. Nodes that are not cut are whole.
pub open spec fn divided(d: Dialect, nodes: Seq<Tree>, start: int, end: int) -> Division {
    let first = first_node(d, nodes, start);
    let last = last_node(d, nodes, end);
    let lo = start_cut(d, nodes, start);
    let hi = end_cut(d, nodes, start, end);
    Division {
        before: nodes.take(first) + part(nodes[first], 0, lo),
        covered: if first == last {
            part(nodes[first], lo, hi)
        } else {
            part(nodes[first], lo, length_of(nodes[first])) + nodes.subrange(first + 1, last)
                + part(nodes[last], 0, hi)
        },
        after: part(nodes[last], hi, length_of(nodes[last])) + nodes.skip(last + 1),
    }
}

/// A node begins where the one before it ends.
pub proof fn lemma_start_of(d: Dialect, nodes: Seq<Tree>, i: int)
    requires
        0 <= i < nodes.len(),
    ensures
        start_of(d, nodes, i + 1) == start_of(d, nodes, i) + width(alone(d, nodes[i])),
        start_of(d, nodes, 0) == 0,
        start_of(d, nodes, nodes.len() as int) == total_width(d, nodes),
{
    assert(nodes.take(i + 1).drop_last() =~= nodes.take(i));
    assert(nodes.take(nodes.len() as int) =~= nodes);
}

/// Later nodes begin later.
pub proof fn lemma_start_order(d: Dialect, nodes: Seq<Tree>, i: int, j: int)
    requires
        0 <= i <= j <= nodes.len(),
    ensures
        0 <= start_of(d, nodes, i) <= start_of(d, nodes, j),
    decreases j - i,
{
    if i < j {
        lemma_start_order(d, nodes, i, j - 1);
        lemma_start_of(d, nodes, j - 1);
    }
}

/// The node that `first_past` finds.
pub proof fn lemma_first_past(d: Dialect, nodes: Seq<Tree>, at: int, i: int)
    requires
        0 <= i <= nodes.len(),
    ensures
        i <= first_past(d, nodes, at, i) <= nodes.len(),
        forall|j: int|
            i <= j < first_past(d, nodes, at, i) ==> #[trigger] start_of(d, nodes, j + 1) <= at,
        first_past(d, nodes, at, i) < nodes.len() ==> at < start_of(
            d,
            nodes,
            first_past(d, nodes, at, i) + 1,
        ),
    decreases nodes.len() - i,
{
    if i < nodes.len() && at >= start_of(d, nodes, i + 1) {
        lemma_first_past(d, nodes, at, i + 1);
    }
}

/// The node that `first_up_to` finds.
pub proof fn lemma_first_up_to(d: Dialect, nodes: Seq<Tree>, at: int, i: int)
    requires
        0 <= i <= nodes.len(),
    ensures
        i <= first_up_to(d, nodes, at, i) <= nodes.len(),
        forall|j: int|
            i <= j < first_up_to(d, nodes, at, i) ==> !(start_of(d, nodes, j) < at
                <= #[trigger] start_of(d, nodes, j + 1)),
        first_up_to(d, nodes, at, i) < nodes.len() ==> start_of(
            d,
            nodes,
            first_up_to(d, nodes, at, i),
        ) < at <= start_of(d, nodes, first_up_to(d, nodes, at, i) + 1),
    decreases nodes.len() - i,
{
    if i < nodes.len() && !(start_of(d, nodes, i) < at <= start_of(d, nodes, i + 1)) {
        lemma_first_up_to(d, nodes, at, i + 1);
    }
}

/// A match begins in a node before the one in which it ends, or in the same.
pub proof fn lemma_match_order(d: Dialect, nodes: Seq<Tree>, start: int, end: int)
    requires
        start < end,
        first_node(d, nodes, start) < nodes.len(),
        last_node(d, nodes, end) < nodes.len(),
    ensures
        0 <= first_node(d, nodes, start) <= last_node(d, nodes, end),
{
    let first = first_node(d, nodes, start);
    let last = last_node(d, nodes, end);
    lemma_first_past(d, nodes, start, 0);
    lemma_first_up_to(d, nodes, end, 0);
    if last < first {
        assert(start_of(d, nodes, last + 1) <= start);
    }
}

impl<I: Fn(&[Json]) -> String, B: Fn(&[Json]) -> String, P: Fn(&str) -> Json> Markdown<I, B, P> {
    fn prefix(&self, node: &Json) -> (r: usize)
        requires
            self.well_defined(),
            is_text(node@),
        ensures
            r == prefix_of(self.dialect(), node@),
    {
        let probe: Json = node.clone().with("text", Json::String(SENTINEL.to_owned()));
        let shown: String = self.extract_text(std::slice::from_ref(&probe));
        assert(trees(seq![probe]) =~= seq![probe@]);
        let found: Vec<usize> = find_all(shown.as_str(), SENTINEL);
        let ghost there = offsets(shown@, SENTINEL@);
        assert(found@.map_values(|at: usize| at as int) == there);
        assert(found@.len() == there.len());
        if found.len() > 0 {
            assert(there[0] == found@[0]);
            found[0]
        } else {
            0
        }
    }

    /// Where the rendering of each node sits, if there is room for them all in one string.
    pub fn inline_spans(&self, nodes: &[Json]) -> (r: Option<Vec<Span>>)
        requires
            self.well_defined(),
        ensures
            r is Some <==> total_width(self.dialect(), trees(nodes@)) <= usize::MAX,
            r matches Some(v) ==> v@.len() == nodes@.len() && forall|i: int|
                0 <= i < v@.len() ==> (#[trigger] v@[i]).is_of(self.dialect(), trees(nodes@), i),
    {
        let ghost d = self.dialect();
        let ghost all = trees(nodes@);
        let mut spans: Vec<Span> = Vec::new();
        let mut position: usize = 0;
        let mut i: usize = 0;
        assert(all.take(0) =~= Seq::<Tree>::empty());
        while i < nodes.len()
            invariant
                i <= nodes@.len(),
                self.well_defined(),
                d == self.dialect(),
                all == trees(nodes@),
                spans@.len() == i,
                position == start_of(d, all, i as int),
                forall|j: int| 0 <= j < i ==> (#[trigger] spans@[j]).is_of(d, all, j),
            decreases nodes@.len() - i,
        {
            let node: &Json = &nodes[i];
            assert(all[i as int] == node@);
            let shown: String = self.extract_text(std::slice::from_ref(node));
            assert(trees(seq![*node]) =~= seq![node@]);
            let wide: usize = byte_len(shown.as_str());
            proof {
                lemma_start_of(d, all, i as int);
                lemma_start_order(d, all, i + 1, all.len() as int);
            }
            if wide > usize::MAX - position {
                return None;
            }
            let text: Option<&str> = if is_a(node, "text") {
                node.text_at("text")
            } else {
                None
            };
            let span: Span = match text {
                Some(t) => Span {
                    start: position,
                    end: position + wide,
                    prefix: self.prefix(node),
                    len: byte_len(t),
                    is_text: true,
                },
                None => Span {
                    start: position,
                    end: position + wide,
                    prefix: 0,
                    len: 1,
                    is_text: false,
                },
            };
            assert(span.is_of(d, all, i as int));
            spans.push(span);
            position = position + wide;
            i = i + 1;
        }
        assert(all.take(all.len() as int) =~= all);
        Some(spans)
    }
}

/// The number of the first span that goes on after `at`.
fn find_past(spans: &Vec<Span>, at: usize, d: Ghost<Dialect>, nodes: Ghost<Seq<Tree>>) -> (r:
    Option<usize>)
    requires
        spans@.len() == nodes@.len(),
        forall|i: int| 0 <= i < spans@.len() ==> (#[trigger] spans@[i]).is_of(d@, nodes@, i),
    ensures
        r is Some <==> first_node(d@, nodes@, at as int) < nodes@.len(),
        r matches Some(i) ==> i == first_node(d@, nodes@, at as int),
{
    let mut i: usize = 0;
    while i < spans.len()
        invariant
            i <= spans@.len(),
            spans@.len() == nodes@.len(),
            forall|i: int| 0 <= i < spans@.len() ==> (#[trigger] spans@[i]).is_of(d@, nodes@, i),
            first_past(d@, nodes@, at as int, i as int) == first_node(d@, nodes@, at as int),
        decreases spans@.len() - i,
    {
        assert(spans@[i as int].is_of(d@, nodes@, i as int));
        if at < spans[i].end {
            return Some(i);
        }
        i = i + 1;
    }
    None
}

/// The number of the first span that begins before `at` and goes up to it.
fn find_up_to(spans: &Vec<Span>, at: usize, d: Ghost<Dialect>, nodes: Ghost<Seq<Tree>>) -> (r:
    Option<usize>)
    requires
        spans@.len() == nodes@.len(),
        forall|i: int| 0 <= i < spans@.len() ==> (#[trigger] spans@[i]).is_of(d@, nodes@, i),
    ensures
        r is Some <==> last_node(d@, nodes@, at as int) < nodes@.len(),
        r matches Some(i) ==> i == last_node(d@, nodes@, at as int),
{
    let mut i: usize = 0;
    while i < spans.len()
        invariant
            i <= spans@.len(),
            spans@.len() == nodes@.len(),
            forall|i: int| 0 <= i < spans@.len() ==> (#[trigger] spans@[i]).is_of(d@, nodes@, i),
            first_up_to(d@, nodes@, at as int, i as int) == last_node(d@, nodes@, at as int),
        decreases spans@.len() - i,
    {
        assert(spans@[i as int].is_of(d@, nodes@, i as int));
        if at > spans[i].start && at <= spans[i].end {
            return Some(i);
        }
        i = i + 1;
    }
    None
}

/// Whether a cut at `at` leaves the characters of a node whole.
fn is_clean_cut(node: &Json, at: usize) -> (r: bool)
    ensures
        r == cuts_cleanly(node@, at as int),
{
    if !is_a(node, "text") {
        return true;
    }
    match node.text_at("text") {
        Some(t) => crate::text::char_index(t, at).is_some(),
        None => true,
    }
}

/// The part of a node from `lo` to `hi`: a text slice with the same marks, or the whole atom.
pub fn piece(node: &Json, lo: usize, hi: usize) -> (r: Option<Json>)
    requires
        lo < hi ==> cuts_cleanly(node@, lo as int) && cuts_cleanly(node@, hi as int),
    ensures
        r is None ==> part(node@, lo as int, hi as int) == Seq::<Tree>::empty(),
        r matches Some(v) ==> part(node@, lo as int, hi as int) == seq![v@],
{
    if lo >= hi {
        return None;
    }
    if is_a(node, "text") {
        if let Some(text) = node.text_at("text") {
            if !(lo == 0 && hi == byte_len(text)) {
                let inner: String = slice_text(text, lo, hi);
                return Some(node.clone().with("text", Json::String(inner)));
            }
        }
    }
    Some(node.clone())
}

/// Adds the part of a node from `lo` to `hi`.
fn add_piece(out: &mut Vec<Json>, node: &Json, lo: usize, hi: usize)
    requires
        lo < hi ==> cuts_cleanly(node@, lo as int) && cuts_cleanly(node@, hi as int),
    ensures
        trees(final(out)@) == trees(old(out)@) + part(node@, lo as int, hi as int),
{
    let ghost before = out@;
    match piece(node, lo, hi) {
        Some(v) => {
            out.push(v);
            assert(trees(out@) =~= trees(before) + seq![v@]);
        },
        None => {
            assert(trees(out@) =~= trees(before) + Seq::<Tree>::empty());
        },
    }
}

/// The ends of a node are clean cuts.
pub proof fn lemma_clean_ends(t: Tree)
    ensures
        cuts_cleanly(t, 0),
        cuts_cleanly(t, length_of(t)),
{
    if is_text(t) {
        let s = text_of(t);
        assert(s.take(0) =~= Seq::<char>::empty());
        assert(s.take(s.len() as int) =~= s);
        assert(width(s.take(0)) == 0);
        assert(width(s.take(s.len() as int)) == width(s));
    }
}

/// The nodes before a match, in it and after it.
pub struct Parts {
    pub before: Vec<Json>,
    pub covered: Vec<Json>,
    pub after: Vec<Json>,
}

impl<I: Fn(&[Json]) -> String, B: Fn(&[Json]) -> String, P: Fn(&str) -> Json> Markdown<I, B, P> {
    /// Divides the nodes of a block by a match from `start` to `end`, if it lines up with them.
    pub fn divide(&self, nodes: &[Json], start: usize, end: usize) -> (r: Option<Parts>)
        requires
            self.well_defined(),
            start < end,
        ensures
            r is Some <==> aligned(self.dialect(), trees(nodes@), start as int, end as int),
            r matches Some(p) ==> ({
                let parts = divided(self.dialect(), trees(nodes@), start as int, end as int);
                &&& trees(p.before@) == parts.before
                &&& trees(p.covered@) == parts.covered
                &&& trees(p.after@) == parts.after
            }),
    {
        let ghost d = self.dialect();
        let ghost all = trees(nodes@);
        let spans: Vec<Span> = match self.inline_spans(nodes) {
            Some(spans) => spans,
            None => {
                return None;
            },
        };
        let first: usize = match find_past(&spans, start, Ghost(d), Ghost(all)) {
            Some(i) => i,
            None => {
                return None;
            },
        };
        let last: usize = match find_up_to(&spans, end, Ghost(d), Ghost(all)) {
            Some(i) => i,
            None => {
                return None;
            },
        };
        proof {
            lemma_first_past(d, all, start as int, 0);
            lemma_first_up_to(d, all, end as int, 0);
            lemma_match_order(d, all, start as int, end as int);
            assert(spans@[first as int].is_of(d, all, first as int));
            assert(spans@[last as int].is_of(d, all, last as int));
            assert(all[first as int] == nodes@[first as int]@);
            assert(all[last as int] == nodes@[last as int]@);
            lemma_clean_ends(all[first as int]);
            lemma_clean_ends(all[last as int]);
        }
        let lo: usize = spans[first].cut(start, false);
        let mut hi: usize = spans[last].cut(end, true);
        if first == last && hi < lo {
            hi = lo;
        }
        assert(lo == start_cut(d, all, start as int));
        assert(hi == end_cut(d, all, start as int, end as int));
        if !is_clean_cut(&nodes[first], lo) || !is_clean_cut(&nodes[last], hi) {
            return None;
        }
        let mut before: Vec<Json> = Vec::new();
        append_copies(&mut before, nodes, 0, first);
        add_piece(&mut before, &nodes[first], 0, lo);
        let mut covered: Vec<Json> = Vec::new();
        if first == last {
            add_piece(&mut covered, &nodes[first], lo, hi);
        } else {
            add_piece(&mut covered, &nodes[first], lo, spans[first].len);
            append_copies(&mut covered, nodes, first + 1, last);
            add_piece(&mut covered, &nodes[last], 0, hi);
        }
        let mut after: Vec<Json> = Vec::new();
        add_piece(&mut after, &nodes[last], hi, spans[last].len);
        append_copies(&mut after, nodes, last + 1, nodes.len());
        proof {
            let parts = divided(d, all, start as int, end as int);
            assert(trees(before@) =~= parts.before);
            assert(trees(covered@) =~= parts.covered);
            assert(trees(after@) =~= parts.after);
        }
        Some(Parts { before, covered, after })
    }
}

} // verus!
