//! The Markdown dialect that an edit matches against: how nodes are rendered, and how
//! Markdown is parsed into a document.

use vstd::prelude::*;

use crate::json::{trees, Json, Tree};

verus! {

/// The functions that render and parse Markdown.
///
/// `inline` renders inline nodes, `blocks` renders block nodes at the top level, and `parse`
/// turns Markdown into a document whose `content` holds the blocks.
pub struct Markdown<I, B, P> {
    pub inline: I,
    pub blocks: B,
    pub parse: P,
}

/// A dialect as mathematics.
pub struct Dialect {
    pub inline: spec_fn(Seq<Tree>) -> Seq<char>,
    pub blocks: spec_fn(Seq<Tree>) -> Seq<char>,
    pub parse: spec_fn(Seq<char>) -> Tree,
}

/// `f` may render nodes that hold `nodes` as `text`.
pub open spec fn renders<F: Fn(&[Json]) -> String>(f: F, nodes: Seq<Tree>, text: Seq<char>) -> bool {
    exists|a: &[Json], s: String|
        trees(a@) == nodes && #[trigger] call_ensures(f, (a,), s) && s@ == text
}

/// `f` may parse `text` into a value that holds `tree`.
pub open spec fn parses<F: Fn(&str) -> Json>(f: F, text: Seq<char>, tree: Tree) -> bool {
    exists|a: &str, v: Json| a@ == text && #[trigger] call_ensures(f, (a,), v) && v@ == tree
}

/// `f` renders any nodes, and equal nodes alike.
pub open spec fn is_renderer<F: Fn(&[Json]) -> String>(f: F) -> bool {
    &&& forall|a: &[Json]| #[trigger] call_requires(f, (a,))
    &&& forall|n: Seq<Tree>, s: Seq<char>, t: Seq<char>| #[trigger]
        renders(f, n, s) && #[trigger] renders(f, n, t) ==> s == t
}

/// `f` parses any text, and equal texts alike.
pub open spec fn is_parser<F: Fn(&str) -> Json>(f: F) -> bool {
    &&& forall|a: &str| #[trigger] call_requires(f, (a,))
    &&& forall|n: Seq<char>, s: Tree, t: Tree| #[trigger]
        parses(f, n, s) && #[trigger] parses(f, n, t) ==> s == t
}

impl<I: Fn(&[Json]) -> String, B: Fn(&[Json]) -> String, P: Fn(&str) -> Json> Markdown<I, B, P> {
    /// The three functions take every argument, and what they return depends on nothing but
    /// what the argument holds.
    pub open spec fn well_defined(&self) -> bool {
        &&& is_renderer(self.inline)
        &&& is_renderer(self.blocks)
        &&& is_parser(self.parse)
    }

    /// The dialect that the functions define.
    pub open spec fn dialect(&self) -> Dialect {
        Dialect {
            inline: |nodes: Seq<Tree>| choose|t: Seq<char>| renders(self.inline, nodes, t),
            blocks: |nodes: Seq<Tree>| choose|t: Seq<char>| renders(self.blocks, nodes, t),
            parse: |text: Seq<char>| choose|t: Tree| parses(self.parse, text, t),
        }
    }

    /// Inline nodes as Markdown.
    pub fn extract_text(&self, nodes: &[Json]) -> (r: String)
        requires
            self.well_defined(),
        ensures
            r@ == (self.dialect().inline)(trees(nodes@)),
            renders(self.inline, trees(nodes@), r@),
    {
        let f: &I = &self.inline;
        let r: String = f(nodes);
        assert(renders(self.inline, trees(nodes@), r@));
        r
    }

    /// Top-level blocks as Markdown.
    pub fn convert_nodes(&self, nodes: &[Json]) -> (r: String)
        requires
            self.well_defined(),
        ensures
            r@ == (self.dialect().blocks)(trees(nodes@)),
            renders(self.blocks, trees(nodes@), r@),
    {
        let f: &B = &self.blocks;
        let r: String = f(nodes);
        assert(renders(self.blocks, trees(nodes@), r@));
        r
    }

    /// Markdown as a document.
    pub fn markdown_to_prosemirror(&self, text: &str) -> (r: Json)
        requires
            self.well_defined(),
        ensures
            r@ == (self.dialect().parse)(text@),
            parses(self.parse, text@, r@),
    {
        let f: &P = &self.parse;
        let r: Json = f(text);
        assert(parses(self.parse, text@, r@));
        r
    }
}

/// `std::slice::from_ref`: a slice of length one that holds the value.
pub assume_specification<T>[ std::slice::from_ref::<T> ](s: &T) -> (r: &[T])
    ensures
        r@ == seq![*s],
;

} // verus!
