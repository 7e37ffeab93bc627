//! A page is written only as the caller reviewed it.

use vstd::prelude::*;

use crate::comments::{anchored, comment_set};
use crate::edit::{edited, is_error, is_outcome};
use crate::json::Tree;
use crate::markdown::Dialect;
use crate::operations::is_doc;
use crate::page_write::{
    body_note, can_edit, detaches, has_body, is_dry, is_plan, would_write, write_note,
    EditPageInput, EditPlan, PageRefusal, PageState,
};
use crate::spacing::{texts, white_space};
use crate::stored::matches_sent;

verus! {

/// A write goes out exactly where the page can be edited, the request is no dry run, every
/// operation applies, no thread is detached unless the request allows it, and the page is still
/// at the revision that the request expects.
pub proof fn law_when_a_page_is_written(
    d: Dialect,
    input: EditPageInput,
    page: Option<PageState>,
    r: Result<EditPlan, PageRefusal>,
)
    requires
        is_plan(d, input, page, r),
    ensures
        r matches Ok(EditPlan::Write { .. }) <==> {
            &&& can_edit(page)
            &&& would_write(d, input, page->0.content->0@)
            &&& input.expected_updated_at matches Some(e) && e@ == page->0.updated_at->0@
        },
{
}

/// A dry run never writes, and reports exactly where the page can be edited and every operation
/// applies, whatever threads it would detach.
pub proof fn law_a_dry_run_reports(
    d: Dialect,
    input: EditPageInput,
    page: Option<PageState>,
    r: Result<EditPlan, PageRefusal>,
)
    requires
        is_plan(d, input, page, r),
        is_dry(input),
    ensures
        !(r matches Ok(EditPlan::Write { .. })),
        r matches Ok(EditPlan::Report { .. }) <==> {
            let doc = page->0.content->0@;
            &&& can_edit(page)
            &&& is_doc(doc)
            &&& edited(d, doc, input.operations@, input.operations@.len()) is Ok
        },
{
}

/// Unless the request allows it, no thread that was anchored before a write is detached by it.
pub proof fn law_a_write_detaches_no_thread(
    d: Dialect,
    input: EditPageInput,
    page: Option<PageState>,
    r: Result<EditPlan, PageRefusal>,
    id: Seq<char>,
)
    requires
        is_plan(d, input, page, r),
        r matches Ok(EditPlan::Write { .. }),
        input.allow_detaching_comments != Some(true),
        anchored(page->0.content->0@, id),
    ensures
        anchored(r->Ok_0->Write_outcome.doc@, id),
{
}

/// A write without an expected revision is refused.
pub proof fn law_a_write_needs_a_revision(
    d: Dialect,
    input: EditPageInput,
    page: Option<PageState>,
    r: Result<EditPlan, PageRefusal>,
)
    requires
        is_plan(d, input, page, r),
        !is_dry(input),
        input.expected_updated_at is None,
    ensures
        r is Err,
{
}

/// The answer to a request, case by case. A page that is missing, has no content or no revision
/// is refused as such. Edits that do not all apply are refused with their error. A request that
/// does not say `false` for a dry run is answered with a report. Of the others, one that would
/// detach a thread without leave is refused with those threads, then one without an expected
/// revision, then one that expects another revision. The rest is written, to the page's own id.
pub proof fn law_every_request_is_answered(
    d: Dialect,
    input: EditPageInput,
    page: Option<PageState>,
    r: Result<EditPlan, PageRefusal>,
)
    requires
        is_plan(d, input, page, r),
    ensures
        page is None <==> (r is Err && r->Err_0 is NoPage),
        r matches Err(PageRefusal::NoPage { page_id }) ==> page_id@ == input.page_id@,
        (page matches Some(p) && p.content is None) <==> (r is Err && r->Err_0 is NoContent),
        (page matches Some(p) && p.content is Some && p.updated_at is None) <==> (r is Err && r->Err_0 is NoUpdatedAt),
        !(r is Err && r->Err_0 is BodyIgnored),
        page is Some && page->0.content is Some && page->0.updated_at is Some ==> {
            let p = page->0;
            let doc = p.content->0@;
            let revision = p.updated_at->0@;
            let result = edited(d, doc, input.operations@, input.operations@.len());
            let applies = doc.text_field("type"@) == Some("doc"@) && result is Ok;
            let after = result->Ok_0.0;
            let loses = exists|id: Seq<char>| #[trigger] anchored(doc, id) && !anchored(after, id);
            let dry = !(input.dry_run matches Some(b) && !b);
            let allowed = input.allow_detaching_comments matches Some(b) && b;
            &&& !applies <==> (r is Err && r->Err_0 is Edit)
            &&& r matches Err(PageRefusal::Edit { error }) ==> is_error(
                d,
                doc,
                input.operations@,
                error,
            )
            &&& applies && dry <==> (r is Ok && r->Ok_0 is Report)
            &&& r matches Ok(EditPlan::Report { outcome, updated_at }) ==> is_outcome(
                d,
                doc,
                input.operations@,
                outcome,
            ) && updated_at@ == revision
            &&& applies && !dry && loses && !allowed <==> (r is Err && r->Err_0 is Detaches)
            &&& r matches Err(PageRefusal::Detaches { ids }) ==> forall|id: Seq<char>| #[trigger]
                texts(ids@).contains(id) <==> anchored(doc, id) && !anchored(after, id)
            &&& applies && !dry && (!loses || allowed) && input.expected_updated_at is None
                <==> (r is Err && r->Err_0 is NoExpectedRevision)
            &&& applies && !dry && (!loses || allowed) && (input.expected_updated_at matches Some(
                e,
            ) && e@ != revision) <==> (r is Err && r->Err_0 is PageChanged)
            &&& r matches Err(PageRefusal::PageChanged { updated_at, expected }) ==> updated_at@
                == revision && expected@ == input.expected_updated_at->0@
            &&& applies && !dry && (!loses || allowed) && (input.expected_updated_at matches Some(
                e,
            ) && e@ == revision) <==> (r is Ok && r->Ok_0 is Write)
            &&& r matches Ok(EditPlan::Write { outcome, page_id }) ==> is_outcome(
                d,
                doc,
                input.operations@,
                outcome,
            ) && page_id@ == (match p.id {
                Some(id) => id@,
                None => input.page_id@,
            })
        },
{
    if let Some(p) = page {
        if p.content is Some && p.updated_at is Some {
            let doc = p.content->0@;
            let result = edited(d, doc, input.operations@, input.operations@.len());
            let after = result->Ok_0.0;
            assert(detaches(doc, after) == exists|id: Seq<char>| #[trigger]
                anchored(doc, id) && !anchored(after, id));
            if let Err(PageRefusal::Detaches { ids }) = r {
                assert forall|id: Seq<char>| #[trigger] texts(ids@).contains(id) <==> anchored(
                    doc,
                    id,
                ) && !anchored(after, id) by {
                    assert(texts(ids@).to_set().contains(id) <==> texts(ids@).contains(id));
                    assert(comment_set(doc).difference(comment_set(after)).contains(id)
                        <==> anchored(doc, id) && !anchored(after, id));
                }
            }
        }
    }
}

/// A server that applies bodies needs no caveat. One that does not gets one that names its
/// version, if that is known.
pub proof fn law_a_server_that_ignores_bodies_gets_a_caveat(version: Seq<char>)
    ensures
        body_note(true, None) is None,
        body_note(true, Some(version)) is None,
        body_note(false, Some(version)) == Some(
            "Note: this Docmost server (v"@ + version
                + ") does not apply page-body edits over REST — the body was NOT changed (page bodies are edited through the collaborative editor before v0.70.0). Create a new page with create_page, or edit the body in the Docmost app."@,
        ),
        body_note(false, None) == Some(
            "Note: the Docmost server version could not be determined; if the page body did not change, this server applies body edits through the collaborative editor (not REST). Create a new page with create_page instead."@,
        ),
{
}

/// A write is confirmed exactly where the stored document passes for the one that was sent.
pub proof fn law_a_write_is_confirmed_if_it_passes(sent: Tree, stored: Tree)
    ensures
        ({
            let editor =
                "\n\nIf someone had the page open in the editor, an empty paragraph may appear at the top a few seconds later; remove it in the editor."@;
            let same = "\n\nVerified: the stored content equals the document that was sent."@
                + editor;
            let differs =
                "\n\nNote: the stored content differs from the document that was sent (the server may normalise attributes, or store it with a delay). Re-fetch the page to check."@
                + editor;
            &&& matches_sent(sent, stored) ==> write_note(sent, Some(stored)) == same
            &&& !matches_sent(sent, stored) ==> write_note(sent, Some(stored)) == differs
            &&& write_note(sent, None) == differs
        }),
{
}

/// A body is Markdown with a character that is no white space.
pub proof fn law_a_body_is_more_than_white_space(markdown: Seq<char>)
    ensures
        !has_body(None),
        has_body(Some(markdown)) <==> exists|i: int|
            0 <= i < markdown.len() && !white_space(#[trigger] markdown[i]),
{
}

} // verus!
