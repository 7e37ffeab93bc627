//! What an edit asks for, and what comes of it.

use vstd::prelude::*;

use crate::json::Json;
use crate::spacing::texts;

verus! {

/// Where new blocks go.
#[derive(Clone, Copy, Debug, PartialEq, Eq, Structural)]
pub enum InsertPosition {
    Before,
    After,
}

/// One edit of a page.
#[derive(Debug)]
pub enum EditOperation {
    /// Replace a span inside one block, or a whole table row.
    ReplaceText { find: String, replace: String },
    /// Insert Markdown blocks next to the top-level block that contains `anchor`.
    InsertBlocks { anchor: String, position: InsertPosition, markdown: String },
    /// Insert rows, one per line, after the table row that contains `anchor`.
    AppendTableRow { anchor: String, row: String },
}

/// One applied operation, rendered as Markdown before and after.
#[derive(Debug, PartialEq, Eq)]
pub struct EditChange {
    pub description: String,
    pub before: String,
    pub after: String,
}

/// An applied operation as mathematics.
#[verifier::ext_equal]
pub struct Change {
    pub description: Seq<char>,
    pub before: Seq<char>,
    pub after: Seq<char>,
}

impl EditChange {
    /// The change as mathematics.
    pub open spec fn view(&self) -> Change {
        Change { description: self.description@, before: self.before@, after: self.after@ }
    }
}

/// The changes as mathematics.
pub open spec fn changes(v: Seq<EditChange>) -> Seq<Change> {
    v.map_values(|c: EditChange| c@)
}

/// A document with all operations applied.
#[derive(Debug)]
pub struct EditOutcome {
    pub doc: Json,
    pub changes: Vec<EditChange>,
    /// Comment ids whose last mark the edits removed (their threads would be detached).
    pub detached_comments: Vec<String>,
    /// Top-level blocks carried over unchanged, out of the original count.
    pub unchanged_blocks: (usize, usize),
}

impl Clone for EditChange {
    fn clone(&self) -> (r: EditChange)
        ensures
            r@ == self@,
    {
        EditChange {
            description: self.description.clone(),
            before: self.before.clone(),
            after: self.after.clone(),
        }
    }
}

impl Clone for EditOutcome {
    fn clone(&self) -> (r: EditOutcome)
        ensures
            r.doc@ == self.doc@,
            changes(r.changes@) == changes(self.changes@),
            texts(r.detached_comments@) == texts(self.detached_comments@),
            r.unchanged_blocks == self.unchanged_blocks,
    {
        let copied: Vec<EditChange> = self.changes.clone();
        let ids: Vec<String> = self.detached_comments.clone();
        assert(changes(copied@) =~= changes(self.changes@));
        assert(texts(ids@) =~= texts(self.detached_comments@));
        EditOutcome {
            doc: self.doc.clone(),
            changes: copied,
            detached_comments: ids,
            unchanged_blocks: self.unchanged_blocks,
        }
    }
}

} // verus!
