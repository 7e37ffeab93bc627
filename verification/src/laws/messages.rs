//! What callers are told: counts, texts, types and threads appear in messages as they are.

use vstd::prelude::*;

use crate::failure::{failure_text, EditError, Failure, OperationError};
use crate::json::Json;
use crate::operations::applied_view;
use crate::page_write::PageRefusal;
use crate::spacing::{joined, texts};
use crate::types::{changes, EditChange};
use crate::wording::{decimal, preview_text};

verus! {

/// A failure to match names the number of matches and shows the text.
pub proof fn law_failed_matches_are_counted(count: nat, text: Seq<char>)
    ensures
        failure_text(Failure::FindMatches { count, find: text }) == "`find` matches "@ + decimal(
            count,
        ) + " times, expected exactly 1: "@ + preview_text(text),
        failure_text(Failure::AnchorInBlocks { count, anchor: text }) == "`anchor` matches "@
            + decimal(count) + " times in top-level blocks, expected exactly 1: "@ + preview_text(
            text,
        ),
        failure_text(Failure::AnchorInRows { count, anchor: text }) == "`anchor` matches "@
            + decimal(count) + " times in table rows, expected exactly 1: "@ + preview_text(text),
        failure_text(Failure::RowShape { cells: count, line: text })
            == "expected one Markdown table row with "@ + decimal(count) + " cells: "@
            + preview_text(text),
{
}

/// A refused span names the type of the hidden node, or shows the text that cuts syntax.
pub proof fn law_refused_spans_are_explained(text: Seq<char>)
    ensures
        failure_text(Failure::HiddenNode { kind: Some(text) }) == "the match contains a `"@ + text
            + "` node that has no Markdown form and would be deleted"@,
        failure_text(Failure::HiddenNode { kind: None }) == "the match contains a `"@ + "unknown"@
            + "` node that has no Markdown form and would be deleted"@,
        failure_text(Failure::CutsSyntax { find: text })
            == "`find` starts or ends inside Markdown syntax (between a `**`, `` ` `` or `[` and its text); widen or narrow it to whole marks: "@
            + preview_text(text),
{
}

/// An error names the operation by its number, and says that nothing was written.
pub proof fn law_errors_name_the_operation(number: usize, cause: OperationError)
    ensures
        (EditError::Operation { number, cause }).text() == "operation "@ + decimal(number as nat)
            + " failed, nothing written: "@ + failure_text(cause@),
        EditError::NotADocument.text() == "the page content is not a ProseMirror document"@,
{
}

/// A refusal names the page, the threads, the revisions or the error that it is about.
pub proof fn law_refusals_name_what_they_are_about(
    page_id: String,
    ids: Vec<String>,
    updated_at: String,
    expected: String,
    error: EditError,
)
    ensures
        (PageRefusal::NoPage { page_id }).text() == "No Docmost page was found for \""@ + page_id@
            + "\"."@,
        (PageRefusal::Detaches { ids }).text()
            == "Refused: the edits remove the last anchor of inline comment thread(s) "@ + joined(
            texts(ids@),
            ", "@,
        ) + ". Narrow the edit, or set allow_detaching_comments=true if that is intended."@,
        (PageRefusal::PageChanged { updated_at, expected }).text()
            == "Refused: the page changed since the dry run (updatedAt is now "@ + updated_at@
            + ", expected "@ + expected@ + "). Run the dry run again."@,
        (PageRefusal::Edit { error }).text() == error.text(),
        (PageRefusal::BodyIgnored { note: expected }).text() == expected@,
{
}

/// Changes and strings are seen as they are, one by one.
pub proof fn law_changes_are_seen_as_they_are(
    c: EditChange,
    list: Vec<EditChange>,
    strings: Vec<String>,
    doc: Json,
    f: OperationError,
)
    ensures
        c@.description == c.description@,
        c@.before == c.before@,
        c@.after == c.after@,
        changes(list@).len() == list@.len(),
        forall|i: int| 0 <= i < list@.len() ==> #[trigger] changes(list@)[i] == list@[i]@,
        texts(strings@).len() == strings@.len(),
        forall|i: int| 0 <= i < strings@.len() ==> #[trigger] texts(strings@)[i] == strings@[i]@,
        applied_view(Ok((doc, c))) == crate::operations::Applied::Ok((doc@, c@)),
        applied_view(Err(f)) == crate::operations::Applied::Err(f@),
{
}

/// A failure is seen with the count and the text that it holds.
pub proof fn law_failures_are_seen_as_they_are(count: usize, text: String)
    ensures
        (OperationError::FindMatches { count, find: text })@ == (Failure::<
            Seq<char>,
            nat,
        >::FindMatches { count: count as nat, find: text@ }),
        (OperationError::AnchorInBlocks { count, anchor: text })@ == (Failure::<
            Seq<char>,
            nat,
        >::AnchorInBlocks { count: count as nat, anchor: text@ }),
        (OperationError::AnchorInRows { count, anchor: text })@ == (Failure::<
            Seq<char>,
            nat,
        >::AnchorInRows { count: count as nat, anchor: text@ }),
        (OperationError::RowShape { cells: count, line: text })@ == (Failure::<
            Seq<char>,
            nat,
        >::RowShape { cells: count as nat, line: text@ }),
        (OperationError::HiddenNode { kind: Some(text) })@ == (Failure::<
            Seq<char>,
            nat,
        >::HiddenNode { kind: Some(text@) }),
        (OperationError::HiddenNode { kind: None })@ == (Failure::<
            Seq<char>,
            nat,
        >::HiddenNode { kind: None }),
        (OperationError::CutsSyntax { find: text })@ == (Failure::<
            Seq<char>,
            nat,
        >::CutsSyntax { find: text@ }),
        OperationError::EmptyFind@ == Failure::<Seq<char>, nat>::EmptyFind,
        OperationError::EmptyAnchor@ == Failure::<Seq<char>, nat>::EmptyAnchor,
        OperationError::NotInline@ == Failure::<Seq<char>, nat>::NotInline,
        OperationError::NoBlocks@ == Failure::<Seq<char>, nat>::NoBlocks,
        OperationError::NoRow@ == Failure::<Seq<char>, nat>::NoRow,
        OperationError::Misaligned@ == Failure::<Seq<char>, nat>::Misaligned,
        OperationError::NotANode@ == Failure::<Seq<char>, nat>::NotANode,
{
}

} // verus!
