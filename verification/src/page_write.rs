//! The decisions behind the page tools: what to send, what to refuse, and what to say.

use vstd::prelude::*;
use vstd::string::*;

use crate::comments::{anchored, comment_set};
use crate::edit::{apply_edits, edited, is_error, is_outcome};
use crate::failure::EditError;
use crate::json::{Json, Tree};
use crate::markdown::{Dialect, Markdown};
use crate::order::ascending;
use crate::spacing::{blank, is_blank, join, joined, texts};
use crate::stored::{matches_sent, stored_matches_sent};
use crate::text::same_text;
use crate::types::{EditOperation, EditOutcome};

verus! {

/// A page as the server returns it.
#[derive(Debug)]
pub struct PageState {
    pub id: Option<String>,
    pub updated_at: Option<String>,
    pub content: Option<Json>,
}

/// A request to edit a page in place.
#[derive(Debug)]
pub struct EditPageInput {
    pub page_id: String,
    pub operations: Vec<EditOperation>,
    /// Only report what would change. The default.
    pub dry_run: Option<bool>,
    /// Write even if a comment thread loses its last mark.
    pub allow_detaching_comments: Option<bool>,
    /// The revision that the caller has reviewed.
    pub expected_updated_at: Option<String>,
}

/// What to do with a request that can be met.
#[derive(Debug)]
pub enum EditPlan {
    /// Report what would change. Nothing is written.
    Report { outcome: EditOutcome, updated_at: String },
    /// Write the edited document to the page.
    Write { outcome: EditOutcome, page_id: String },
}

/// Why a request is refused.
#[derive(Debug)]
pub enum PageRefusal {
    NoPage { page_id: String },
    NoContent,
    NoUpdatedAt,
    Edit { error: EditError },
    Detaches { ids: Vec<String> },
    NoExpectedRevision,
    PageChanged { updated_at: String, expected: String },
    BodyIgnored { note: String },
}

impl PageRefusal {
    /// What the refusal says.
    pub open spec fn text(&self) -> Seq<char> {
        match self {
            PageRefusal::NoPage { page_id } => "No Docmost page was found for \""@ + page_id@
                + "\"."@,
            PageRefusal::NoContent => "The page has no ProseMirror content to edit."@,
            PageRefusal::NoUpdatedAt =>
                "The page has no updatedAt; edit_page cannot guard the write."@,
            PageRefusal::Edit { error } => error.text(),
            PageRefusal::Detaches { ids } =>
                "Refused: the edits remove the last anchor of inline comment thread(s) "@ + joined(
                texts(ids@),
                ", "@,
            )
                + ". Narrow the edit, or set allow_detaching_comments=true if that is intended."@,
            PageRefusal::NoExpectedRevision =>
                "A write needs expected_updated_at: run a dry run first and pass its updatedAt."@,
            PageRefusal::PageChanged { updated_at, expected } =>
                "Refused: the page changed since the dry run (updatedAt is now "@ + updated_at@
                + ", expected "@ + expected@ + "). Run the dry run again."@,
            PageRefusal::BodyIgnored { note } => note@,
        }
    }

    /// What the refusal says.
    pub fn message(&self) -> (r: String)
        ensures
            r@ == self.text(),
    {
        match self {
            PageRefusal::NoPage { page_id } => "No Docmost page was found for \"".to_owned().concat(
                page_id.as_str(),
            ).concat("\"."),
            PageRefusal::NoContent => "The page has no ProseMirror content to edit.".to_owned(),
            PageRefusal::NoUpdatedAt =>
                "The page has no updatedAt; edit_page cannot guard the write.".to_owned(),
            PageRefusal::Edit { error } => error.message(),
            PageRefusal::Detaches { ids } =>
                "Refused: the edits remove the last anchor of inline comment thread(s) ".to_owned().concat(
                join(ids, ", ").as_str(),
            ).concat(
                ". Narrow the edit, or set allow_detaching_comments=true if that is intended.",
            ),
            PageRefusal::NoExpectedRevision =>
                "A write needs expected_updated_at: run a dry run first and pass its updatedAt.".to_owned(),
            PageRefusal::PageChanged { updated_at, expected } =>
                "Refused: the page changed since the dry run (updatedAt is now ".to_owned().concat(
                updated_at.as_str(),
            ).concat(", expected ").concat(expected.as_str()).concat("). Run the dry run again."),
            PageRefusal::BodyIgnored { note } => note.clone(),
        }
    }
}

/// The page has what an edit needs: content, and a revision to guard the write with.
pub open spec fn can_edit(page: Option<PageState>) -> bool {
    page matches Some(p) && p.content is Some && p.updated_at is Some
}

/// The request only asks for a report.
pub open spec fn is_dry(input: EditPageInput) -> bool {
    input.dry_run != Some(false)
}

/// A comment thread that was anchored in `before` is no longer anchored in `after`.
pub open spec fn detaches(before: Tree, after: Tree) -> bool {
    exists|id: Seq<char>| #[trigger] anchored(before, id) && !anchored(after, id)
}

/// No comment thread is detached, or the request allows it.
pub open spec fn may_write(input: EditPageInput, before: Tree, after: Tree) -> bool {
    !detaches(before, after) || input.allow_detaching_comments == Some(true)
}

/// The edits apply, the request asks for a write, and no thread stands in its way.
pub open spec fn would_write(d: Dialect, input: EditPageInput, doc: Tree) -> bool {
    &&& !is_dry(input)
    &&& crate::operations::is_doc(doc)
    &&& edited(d, doc, input.operations@, input.operations@.len()) matches Ok((after, _))
        && may_write(input, doc, after)
}

/// The answer to a request to edit a page.
pub open spec fn is_plan(
    d: Dialect,
    input: EditPageInput,
    page: Option<PageState>,
    r: Result<EditPlan, PageRefusal>,
) -> bool {
    let p = page->0;
    let doc = p.content->0@;
    let revision = p.updated_at->0@;
    match r {
        Err(PageRefusal::NoPage { page_id }) => page is None && page_id@ == input.page_id@,
        Err(PageRefusal::NoContent) => page is Some && p.content is None,
        Err(PageRefusal::NoUpdatedAt) => page is Some && p.content is Some && p.updated_at is None,
        Err(PageRefusal::Edit { error }) => can_edit(page) && is_error(
            d,
            doc,
            input.operations@,
            error,
        ),
        Ok(EditPlan::Report { outcome, updated_at }) => {
            &&& can_edit(page)
            &&& is_dry(input)
            &&& is_outcome(d, doc, input.operations@, outcome)
            &&& updated_at@ == revision
        },
        Err(PageRefusal::Detaches { ids }) => {
            &&& can_edit(page)
            &&& !is_dry(input)
            &&& crate::operations::is_doc(doc)
            &&& edited(d, doc, input.operations@, input.operations@.len()) matches Ok((after, _))
                && {
                &&& !may_write(input, doc, after)
                &&& ascending(texts(ids@))
                &&& texts(ids@).to_set() == comment_set(doc).difference(comment_set(after))
            }
        },
        Err(PageRefusal::NoExpectedRevision) => {
            &&& can_edit(page)
            &&& would_write(d, input, doc)
            &&& input.expected_updated_at is None
        },
        Err(PageRefusal::PageChanged { updated_at, expected }) => {
            &&& can_edit(page)
            &&& would_write(d, input, doc)
            &&& input.expected_updated_at matches Some(e) && e@ == expected@
            &&& updated_at@ == revision
            &&& expected@ != revision
        },
        Ok(EditPlan::Write { outcome, page_id }) => {
            &&& can_edit(page)
            &&& would_write(d, input, doc)
            &&& is_outcome(d, doc, input.operations@, outcome)
            &&& input.expected_updated_at matches Some(e) && e@ == revision
            &&& page_id@ == match p.id {
                Some(id) => id@,
                None => input.page_id@,
            }
        },
        Err(PageRefusal::BodyIgnored { note }) => false,
    }
}

/// Decides on a request to edit `page`: a dry run reports what would change, and a write needs
/// that no comment thread is detached unless the request allows it, and that the page is still
/// at the revision that the caller has reviewed.
pub fn plan_edit<I: Fn(&[Json]) -> String, B: Fn(&[Json]) -> String, P: Fn(&str) -> Json>(
    markdown: &Markdown<I, B, P>,
    input: &EditPageInput,
    page: &Option<PageState>,
) -> (r: Result<EditPlan, PageRefusal>)
    requires
        markdown.well_defined(),
    ensures
        is_plan(markdown.dialect(), *input, *page, r),
{
    let ghost d = markdown.dialect();
    let page: &PageState = match page {
        Some(page) => page,
        None => {
            return Err(PageRefusal::NoPage { page_id: input.page_id.clone() });
        },
    };
    let content: &Json = match &page.content {
        Some(content) => content,
        None => {
            return Err(PageRefusal::NoContent);
        },
    };
    let updated_at: &String = match &page.updated_at {
        Some(updated_at) => updated_at,
        None => {
            return Err(PageRefusal::NoUpdatedAt);
        },
    };
    let outcome: EditOutcome = match apply_edits(markdown, content, input.operations.as_slice()) {
        Ok(outcome) => outcome,
        Err(error) => {
            return Err(PageRefusal::Edit { error });
        },
    };
    let dry: bool = match input.dry_run {
        Some(dry) => dry,
        None => true,
    };
    if dry {
        return Ok(EditPlan::Report { outcome, updated_at: updated_at.clone() });
    }
    let allowed: bool = match input.allow_detaching_comments {
        Some(allowed) => allowed,
        None => false,
    };
    proof {
        let ids = texts(outcome.detached_comments@);
        let lost = comment_set(content@).difference(comment_set(outcome.doc@));
        if ids.len() > 0 {
            assert(ids.to_set().contains(ids[0]));
            assert(lost.contains(ids[0]));
            assert(anchored(content@, ids[0]));
        }
        if detaches(content@, outcome.doc@) {
            let id = choose|id: Seq<char>| #[trigger]
                anchored(content@, id) && !anchored(outcome.doc@, id);
            assert(lost.contains(id));
            assert(ids.contains(id));
        }
        assert(detaches(content@, outcome.doc@) == (outcome.detached_comments@.len() > 0));
    }
    if outcome.detached_comments.len() > 0 && !allowed {
        return Err(PageRefusal::Detaches { ids: outcome.detached_comments });
    }
    let expected: &String = match &input.expected_updated_at {
        Some(expected) => expected,
        None => {
            return Err(PageRefusal::NoExpectedRevision);
        },
    };
    if !same_text(expected.as_str(), updated_at.as_str()) {
        return Err(
            PageRefusal::PageChanged {
                updated_at: updated_at.clone(),
                expected: expected.clone(),
            },
        );
    }
    let page_id: String = match &page.id {
        Some(id) => id.clone(),
        None => input.page_id.clone(),
    };
    Ok(EditPlan::Write { outcome, page_id })
}

/// The caveat for a body that was sent to a server that may not apply it. A server that applies
/// bodies needs none.
pub open spec fn body_note(applies_body: bool, version: Option<Seq<char>>) -> Option<Seq<char>> {
    if applies_body {
        None
    } else {
        match version {
            Some(v) => Some(
                "Note: this Docmost server (v"@ + v
                    + ") does not apply page-body edits over REST — the body was NOT changed (page bodies are edited through the collaborative editor before v0.70.0). Create a new page with create_page, or edit the body in the Docmost app."@,
            ),
            None => Some(
                "Note: the Docmost server version could not be determined; if the page body did not change, this server applies body edits through the collaborative editor (not REST). Create a new page with create_page instead."@,
            ),
        }
    }
}

/// A caveat for when a body was sent but this server may not apply it over REST. `None` when the
/// server supports REST body updates (no caveat needed).
pub fn body_update_note(applies_body: bool, version: Option<&str>) -> (r: Option<String>)
    ensures
        r is Some <==> !applies_body,
        r matches Some(note) ==> body_note(
            applies_body,
            match version {
                Some(v) => Some(v@),
                None => None,
            },
        ) == Some(note@),
{
    if applies_body {
        return None;
    }
    Some(
        match version {
            Some(version) => "Note: this Docmost server (v".to_owned().concat(version).concat(
                ") does not apply page-body edits over REST — the body was NOT changed (page bodies are edited through the collaborative editor before v0.70.0). Create a new page with create_page, or edit the body in the Docmost app.",
            ),
            None => "Note: the Docmost server version could not be determined; if the page body did not change, this server applies body edits through the collaborative editor (not REST). Create a new page with create_page instead.".to_owned(),
        },
    )
}

/// Whether a planned write may go out. An older server ignores the body, so the write is refused
/// rather than reported as done.
pub fn check_server(applies_body: bool, version: Option<&str>) -> (r: Result<(), PageRefusal>)
    ensures
        r is Ok <==> applies_body,
        r matches Err(refusal) ==> Some(refusal.text()) == body_note(
            applies_body,
            match version {
                Some(v) => Some(v@),
                None => None,
            },
        ) && refusal is BodyIgnored,
{
    match body_update_note(applies_body, version) {
        Some(note) => Err(PageRefusal::BodyIgnored { note }),
        None => Ok(()),
    }
}

/// What is added to the report of a write.
pub open spec fn write_note(sent: Tree, stored: Option<Tree>) -> Seq<char> {
    (if stored matches Some(t) && matches_sent(sent, t) {
        "\n\nVerified: the stored content equals the document that was sent."@
    } else {
        "\n\nNote: the stored content differs from the document that was sent (the server may normalise attributes, or store it with a delay). Re-fetch the page to check."@
    })
        + "\n\nIf someone had the page open in the editor, an empty paragraph may appear at the top a few seconds later; remove it in the editor."@
}

/// What is added to the report of a write: whether the stored content is what was sent, but for
/// the attributes that the server adds, and what an open editor may still do.
pub fn confirm_write(sent: &Json, stored: &Option<PageState>) -> (r: String)
    ensures
        r@ == write_note(
            sent@,
            match stored {
                Some(page) => match page.content {
                    Some(content) => Some(content@),
                    None => None,
                },
                None => None,
            },
        ),
{
    let same: bool = match stored {
        Some(page) => match &page.content {
            Some(content) => stored_matches_sent(sent, content),
            None => false,
        },
        None => false,
    };
    let found: &str = if same {
        "\n\nVerified: the stored content equals the document that was sent."
    } else {
        "\n\nNote: the stored content differs from the document that was sent (the server may normalise attributes, or store it with a delay). Re-fetch the page to check."
    };
    found.to_owned().concat(
        "\n\nIf someone had the page open in the editor, an empty paragraph may appear at the top a few seconds later; remove it in the editor.",
    )
}

/// A body was given: Markdown that is not blank.
pub open spec fn has_body(markdown: Option<Seq<char>>) -> bool {
    markdown matches Some(m) && !is_blank(m)
}

/// What is added to the report of a created page: a page that is created with a body lands at
/// the space root, whatever parent was asked for.
pub fn created_note(markdown: Option<&str>, has_parent: bool) -> (r: Option<&'static str>)
    ensures
        r is Some <==> has_parent && has_body(
            match markdown {
                Some(m) => Some(m@),
                None => None,
            },
        ),
        r matches Some(note) ==> note@
            == "\n\nNote: this page was created at the space root — parent_page_id is not applied when a Markdown body is provided (Docmost's import path has no parent parameter). Use move_page afterwards to nest it under a parent."@,
{
    let body: bool = match markdown {
        Some(m) => !blank(m),
        None => false,
    };
    if body && has_parent {
        Some(
            "\n\nNote: this page was created at the space root — parent_page_id is not applied when a Markdown body is provided (Docmost's import path has no parent parameter). Use move_page afterwards to nest it under a parent.",
        )
    } else {
        None
    }
}

/// The body to send with an update: the Markdown as a document, if there is any.
pub fn updated_body<I: Fn(&[Json]) -> String, B: Fn(&[Json]) -> String, P: Fn(&str) -> Json>(
    dialect: &Markdown<I, B, P>,
    markdown: Option<&str>,
) -> (r: Option<Json>)
    requires
        dialect.well_defined(),
    ensures
        r is Some <==> has_body(
            match markdown {
                Some(m) => Some(m@),
                None => None,
            },
        ),
        r matches Some(body) ==> body@ == (dialect.dialect().parse)(markdown->0@),
{
    match markdown {
        Some(m) => if blank(m) {
            None
        } else {
            Some(dialect.markdown_to_prosemirror(m))
        },
        None => None,
    }
}

} // verus!
