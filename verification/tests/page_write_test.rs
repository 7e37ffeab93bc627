use docmost_local_mcp::failure::{EditError, Failure};
use docmost_local_mcp::json::{Fields, Json};
use docmost_local_mcp::markdown::Markdown;
use docmost_local_mcp::page_write::{
    body_update_note, check_server, confirm_write, created_note, plan_edit, updated_body,
    EditPageInput, EditPlan, PageRefusal, PageState,
};
use docmost_local_mcp::types::EditOperation;

fn text(s: &str) -> Json {
    Json::String(s.to_string())
}

fn object(fields: Vec<(&str, Json)>) -> Json {
    Json::Object(fields.into_iter().fold(Fields::new(), |all, (key, value)| all.with(key, value)))
}

fn words(s: &str) -> Json {
    object(vec![("type", text("text")), ("text", text(s))])
}

fn commented(s: &str, id: &str) -> Json {
    let attrs = object(vec![("commentId", text(id))]);
    let mark = object(vec![("type", text("comment")), ("attrs", attrs)]);
    words(s).with("marks", Json::Array(vec![mark]))
}

fn paragraph(nodes: Vec<Json>) -> Json {
    object(vec![("type", text("paragraph")), ("content", Json::Array(nodes))])
}

fn doc(blocks: Vec<Json>) -> Json {
    object(vec![("type", text("doc")), ("content", Json::Array(blocks))])
}

fn inline(nodes: &[Json]) -> String {
    nodes.iter().map(|n| n.text_at("text").unwrap_or("")).collect()
}

fn blocks(nodes: &[Json]) -> String {
    nodes.iter().map(|n| inline(n.list_at("content"))).collect::<Vec<_>>().join("\n\n")
}

fn parse(markdown: &str) -> Json {
    doc(markdown.split("\n\n").map(|s| paragraph(vec![words(s)])).collect())
}

fn page(content: Json) -> Option<PageState> {
    Some(PageState {
        id: Some("id-1".to_string()),
        updated_at: Some("monday".to_string()),
        content: Some(content),
    })
}

fn request(find: &str, dry_run: Option<bool>, expected: Option<&str>) -> EditPageInput {
    EditPageInput {
        page_id: "slug".to_string(),
        operations: vec![EditOperation::ReplaceText {
            find: find.to_string(),
            replace: "new".to_string(),
        }],
        dry_run,
        allow_detaching_comments: None,
        expected_updated_at: expected.map(str::to_string),
    }
}

fn plan(input: &EditPageInput, page: &Option<PageState>) -> Result<EditPlan, PageRefusal> {
    plan_edit(&Markdown { inline, blocks, parse }, input, page)
}

fn refusal(input: &EditPageInput, page: &Option<PageState>) -> PageRefusal {
    plan(input, page).err().unwrap()
}

fn one_line() -> Json {
    doc(vec![paragraph(vec![words("old words")])])
}

fn two_threads() -> Json {
    doc(vec![paragraph(vec![commented("a", "c2"), commented("b", "c1"), words("c")])])
}

#[test]
fn a_page_that_cannot_be_edited_is_refused() {
    let input = request("old", None, None);
    let missing = refusal(&input, &None);
    assert!(matches!(missing, PageRefusal::NoPage { .. }));
    assert_eq!(missing.message(), "No Docmost page was found for \"slug\".");
    let mut empty = page(one_line());
    empty.as_mut().unwrap().content = None;
    let without_content = refusal(&input, &empty);
    assert!(matches!(without_content, PageRefusal::NoContent));
    assert_eq!(without_content.message(), "The page has no ProseMirror content to edit.");
    let mut undated = page(one_line());
    undated.as_mut().unwrap().updated_at = None;
    let without_revision = refusal(&input, &undated);
    assert!(matches!(without_revision, PageRefusal::NoUpdatedAt));
    assert_eq!(
        without_revision.message(),
        "The page has no updatedAt; edit_page cannot guard the write."
    );
}

#[test]
fn edits_that_do_not_apply_are_refused() {
    let refused = refusal(&request("absent", None, None), &page(one_line()));
    assert!(matches!(
        refused,
        PageRefusal::Edit {
            error: EditError::Operation { number: 1, cause: Failure::FindMatches { count: 0, .. } }
        }
    ));
    assert_eq!(
        refused.message(),
        "operation 1 failed, nothing written: `find` matches 0 times, expected exactly 1: \"absent\""
    );
    let refused = refusal(&request("old", None, None), &page(Json::Null));
    assert_eq!(refused.message(), "the page content is not a ProseMirror document");
}

#[test]
fn a_dry_run_is_the_default_and_reports() {
    for dry_run in [None, Some(true)] {
        for expected in [None, Some("monday"), Some("tuesday")] {
            match plan(&request("old", dry_run, expected), &page(one_line())) {
                Ok(EditPlan::Report { outcome, updated_at }) => {
                    assert_eq!(updated_at, "monday");
                    assert_eq!(outcome.changes[0].after, "new words");
                }
                _ => panic!("a report"),
            }
        }
    }
}

#[test]
fn a_dry_run_lists_the_threads_it_would_detach() {
    match plan(&request("abc", None, None), &page(two_threads())) {
        Ok(EditPlan::Report { outcome, .. }) => {
            assert_eq!(outcome.detached_comments, vec!["c1".to_string(), "c2".to_string()]);
        }
        _ => panic!("a report"),
    }
}

#[test]
fn a_write_that_detaches_threads_is_refused_unless_allowed() {
    let mut input = request("abc", Some(false), Some("monday"));
    let refused = refusal(&input, &page(two_threads()));
    assert!(matches!(refused, PageRefusal::Detaches { .. }));
    assert_eq!(
        refused.message(),
        "Refused: the edits remove the last anchor of inline comment thread(s) c1, c2. Narrow the \
         edit, or set allow_detaching_comments=true if that is intended."
    );
    input.allow_detaching_comments = Some(false);
    assert!(plan(&input, &page(two_threads())).is_err());
    input.allow_detaching_comments = Some(true);
    assert!(matches!(plan(&input, &page(two_threads())), Ok(EditPlan::Write { .. })));
}

#[test]
fn a_write_needs_the_revision_that_was_reviewed() {
    let unset = refusal(&request("old", Some(false), None), &page(one_line()));
    assert!(matches!(unset, PageRefusal::NoExpectedRevision));
    assert_eq!(
        unset.message(),
        "A write needs expected_updated_at: run a dry run first and pass its updatedAt."
    );
    let changed = refusal(&request("old", Some(false), Some("sunday")), &page(one_line()));
    assert!(matches!(changed, PageRefusal::PageChanged { .. }));
    assert_eq!(
        changed.message(),
        "Refused: the page changed since the dry run (updatedAt is now monday, expected sunday). \
         Run the dry run again."
    );
}

#[test]
fn a_reviewed_write_goes_to_the_page() {
    let input = request("old", Some(false), Some("monday"));
    match plan(&input, &page(one_line())) {
        Ok(EditPlan::Write { outcome, page_id }) => {
            assert_eq!(page_id, "id-1");
            assert_eq!(outcome.doc, doc(vec![paragraph(vec![words("new"), words(" words")])]));
        }
        _ => panic!("a write"),
    }
    let mut unnamed = page(one_line());
    unnamed.as_mut().unwrap().id = None;
    match plan(&input, &unnamed) {
        Ok(EditPlan::Write { page_id, .. }) => assert_eq!(page_id, "slug"),
        _ => panic!("a write"),
    }
}

#[test]
fn an_older_server_gets_a_caveat() {
    assert_eq!(body_update_note(true, Some("0.95.0")), None);
    assert_eq!(body_update_note(true, None), None);
    let note = "Note: this Docmost server (v0.60.1) does not apply page-body edits over REST — the \
                body was NOT changed (page bodies are edited through the collaborative editor \
                before v0.70.0). Create a new page with create_page, or edit the body in the \
                Docmost app.";
    assert_eq!(body_update_note(false, Some("0.60.1")).as_deref(), Some(note));
    let unknown = "Note: the Docmost server version could not be determined; if the page body did \
                   not change, this server applies body edits through the collaborative editor \
                   (not REST). Create a new page with create_page instead.";
    assert_eq!(body_update_note(false, None).as_deref(), Some(unknown));
    assert!(check_server(true, None).is_ok());
    let refused = check_server(false, Some("0.60.1")).err().unwrap();
    assert!(matches!(refused, PageRefusal::BodyIgnored { .. }));
    assert_eq!(refused.message(), note);
}

#[test]
fn a_write_is_confirmed_up_to_added_attributes() {
    let editor = "\n\nIf someone had the page open in the editor, an empty paragraph may appear at \
                  the top a few seconds later; remove it in the editor.";
    let same = format!(
        "\n\nVerified: the stored content equals the document that was sent.{editor}"
    );
    let differs = format!(
        "\n\nNote: the stored content differs from the document that was sent (the server may \
         normalise attributes, or store it with a delay). Re-fetch the page to check.{editor}"
    );
    let sent = one_line();
    assert_eq!(confirm_write(&sent, &page(sent.clone())), same);
    let defaults = paragraph(vec![words("old words")])
        .with("attrs", object(vec![("indent", Json::Null)]));
    assert_eq!(confirm_write(&sent, &page(doc(vec![defaults]))), same);
    let added = doc(vec![paragraph(vec![]), paragraph(vec![words("old words")])]);
    assert_eq!(confirm_write(&sent, &page(added)), differs);
    assert_eq!(confirm_write(&sent, &None), differs);
    let mut empty = page(sent.clone());
    empty.as_mut().unwrap().content = None;
    assert_eq!(confirm_write(&sent, &empty), differs);
}

#[test]
fn a_page_created_with_a_body_lands_at_the_root() {
    let note = "\n\nNote: this page was created at the space root — parent_page_id is not applied \
                when a Markdown body is provided (Docmost's import path has no parent parameter). \
                Use move_page afterwards to nest it under a parent.";
    assert_eq!(created_note(Some("# Body"), true), Some(note));
    assert_eq!(created_note(Some("# Body"), false), None);
    assert_eq!(created_note(Some(" \n"), true), None);
    assert_eq!(created_note(None, true), None);
}

#[test]
fn a_blank_body_is_not_sent() {
    let dialect = Markdown { inline, blocks, parse };
    assert_eq!(updated_body(&dialect, None), None);
    assert_eq!(updated_body(&dialect, Some(" \n ")), None);
    assert_eq!(updated_body(&dialect, Some("a\n\nb")), Some(parse("a\n\nb")));
}
