//! Why an edit does not apply, and the messages that say so.

use vstd::prelude::*;
use vstd::string::*;

use crate::wording::{decimal, number_text, preview, preview_text};

verus! {

/// Why an operation does not apply. `T` is a text and `N` a number.
#[derive(Debug)]
pub enum Failure<T, N> {
    /// The text to find is empty.
    EmptyFind,
    /// The anchor is empty.
    EmptyAnchor,
    /// The text to find does not occur exactly once.
    FindMatches { count: N, find: T },
    /// The anchor does not occur exactly once in top-level blocks.
    AnchorInBlocks { count: N, anchor: T },
    /// The anchor does not occur exactly once in table rows.
    AnchorInRows { count: N, anchor: T },
    /// The match holds a node that renders as nothing.
    HiddenNode { kind: Option<T> },
    /// The match starts or ends between mark syntax and its text.
    CutsSyntax { find: T },
    /// The replacement is not one paragraph.
    NotInline,
    /// The Markdown to insert has no blocks.
    NoBlocks,
    /// There is no line to make a table row of.
    NoRow,
    /// A line is not one table row with the right number of cells.
    RowShape { cells: N, line: T },
    /// The rendering of a block is not made of the renderings of its nodes.
    Misaligned,
    /// What stands in a table row is not a node.
    NotANode,
}

/// Why an operation does not apply.
pub type OperationError = Failure<String, usize>;

/// Why edits do not apply to a document.
#[derive(Debug)]
pub enum EditError {
    /// The value is not a ProseMirror document.
    NotADocument,
    /// The operation with this number, counted from one, does not apply.
    Operation { number: usize, cause: OperationError },
}

impl Failure<String, usize> {
    /// The failure as mathematics.
    pub open spec fn view(&self) -> Failure<Seq<char>, nat> {
        match self {
            Failure::EmptyFind => Failure::EmptyFind,
            Failure::EmptyAnchor => Failure::EmptyAnchor,
            Failure::FindMatches { count, find } => Failure::FindMatches {
                count: *count as nat,
                find: find@,
            },
            Failure::AnchorInBlocks { count, anchor } => Failure::AnchorInBlocks {
                count: *count as nat,
                anchor: anchor@,
            },
            Failure::AnchorInRows { count, anchor } => Failure::AnchorInRows {
                count: *count as nat,
                anchor: anchor@,
            },
            Failure::HiddenNode { kind } => Failure::HiddenNode {
                kind: match kind {
                    Some(k) => Some(k@),
                    None => None,
                },
            },
            Failure::CutsSyntax { find } => Failure::CutsSyntax { find: find@ },
            Failure::NotInline => Failure::NotInline,
            Failure::NoBlocks => Failure::NoBlocks,
            Failure::NoRow => Failure::NoRow,
            Failure::RowShape { cells, line } => Failure::RowShape {
                cells: *cells as nat,
                line: line@,
            },
            Failure::Misaligned => Failure::Misaligned,
            Failure::NotANode => Failure::NotANode,
        }
    }
}

/// What a failure says.
pub open spec fn failure_text(f: Failure<Seq<char>, nat>) -> Seq<char> {
    match f {
        Failure::EmptyFind => "`find` is empty"@,
        Failure::EmptyAnchor => "`anchor` is empty"@,
        Failure::FindMatches { count, find } => "`find` matches "@ + decimal(count)
            + " times, expected exactly 1: "@ + preview_text(find),
        Failure::AnchorInBlocks { count, anchor } => "`anchor` matches "@ + decimal(count)
            + " times in top-level blocks, expected exactly 1: "@ + preview_text(anchor),
        Failure::AnchorInRows { count, anchor } => "`anchor` matches "@ + decimal(count)
            + " times in table rows, expected exactly 1: "@ + preview_text(anchor),
        Failure::HiddenNode { kind } => "the match contains a `"@ + (match kind {
            Some(k) => k,
            None => "unknown"@,
        }) + "` node that has no Markdown form and would be deleted"@,
        Failure::CutsSyntax { find } =>
            "`find` starts or ends inside Markdown syntax (between a `**`, `` ` `` or `[` and its text); widen or narrow it to whole marks: "@
            + preview_text(find),
        Failure::NotInline =>
            "`replace` must be inline Markdown (one paragraph); use insert_blocks for new blocks"@,
        Failure::NoBlocks => "`markdown` produced no blocks"@,
        Failure::NoRow => "no table row given"@,
        Failure::RowShape { cells, line } => "expected one Markdown table row with "@ + decimal(
            cells,
        ) + " cells: "@ + preview_text(line),
        Failure::Misaligned => "the rendering of the block does not line up with its nodes"@,
        Failure::NotANode => "a table row holds a value that is not a node"@,
    }
}

impl Failure<String, usize> {
    /// What the failure says.
    pub fn message(&self) -> (r: String)
        ensures
            r@ == failure_text(self@),
    {
        match self {
            Failure::EmptyFind => "`find` is empty".to_owned(),
            Failure::EmptyAnchor => "`anchor` is empty".to_owned(),
            Failure::FindMatches { count, find } => "`find` matches ".to_owned().concat(
                number_text(*count).as_str(),
            ).concat(" times, expected exactly 1: ").concat(preview(find.as_str()).as_str()),
            Failure::AnchorInBlocks { count, anchor } => "`anchor` matches ".to_owned().concat(
                number_text(*count).as_str(),
            ).concat(" times in top-level blocks, expected exactly 1: ").concat(
                preview(anchor.as_str()).as_str(),
            ),
            Failure::AnchorInRows { count, anchor } => "`anchor` matches ".to_owned().concat(
                number_text(*count).as_str(),
            ).concat(" times in table rows, expected exactly 1: ").concat(
                preview(anchor.as_str()).as_str(),
            ),
            Failure::HiddenNode { kind } => "the match contains a `".to_owned().concat(
                match kind {
                    Some(k) => k.as_str(),
                    None => "unknown",
                },
            ).concat("` node that has no Markdown form and would be deleted"),
            Failure::CutsSyntax { find } =>
                "`find` starts or ends inside Markdown syntax (between a `**`, `` ` `` or `[` and its text); widen or narrow it to whole marks: ".to_owned().concat(
                preview(find.as_str()).as_str(),
            ),
            Failure::NotInline =>
                "`replace` must be inline Markdown (one paragraph); use insert_blocks for new blocks".to_owned(),
            Failure::NoBlocks => "`markdown` produced no blocks".to_owned(),
            Failure::NoRow => "no table row given".to_owned(),
            Failure::RowShape { cells, line } =>
                "expected one Markdown table row with ".to_owned().concat(
                number_text(*cells).as_str(),
            ).concat(" cells: ").concat(preview(line.as_str()).as_str()),
            Failure::Misaligned => "the rendering of the block does not line up with its nodes".to_owned(),
            Failure::NotANode => "a table row holds a value that is not a node".to_owned(),
        }
    }
}

impl EditError {
    /// What the error says.
    pub open spec fn text(&self) -> Seq<char> {
        match self {
            EditError::NotADocument => "the page content is not a ProseMirror document"@,
            EditError::Operation { number, cause } => "operation "@ + decimal(*number as nat)
                + " failed, nothing written: "@ + failure_text(cause@),
        }
    }

    /// What the error says.
    pub fn message(&self) -> (r: String)
        ensures
            r@ == self.text(),
    {
        match self {
            EditError::NotADocument => "the page content is not a ProseMirror document".to_owned(),
            EditError::Operation { number, cause } => "operation ".to_owned().concat(
                number_text(*number).as_str(),
            ).concat(" failed, nothing written: ").concat(cause.message().as_str()),
        }
    }
}

} // verus!
