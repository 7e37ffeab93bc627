use docmost_local_mcp::edit::apply_edits;
use docmost_local_mcp::json::{Fields, Json, Number};
use docmost_local_mcp::markdown::Markdown;
use docmost_local_mcp::stored::stored_matches_sent;
use docmost_local_mcp::types::{EditChange, EditOperation, InsertPosition};
use pulldown_cmark::{Event, Options, Parser, Tag, TagEnd};
use serde_json::Value;

fn to_json(value: &Value) -> Json {
    match value {
        Value::Null => Json::Null,
        Value::Bool(b) => Json::Bool(*b),
        Value::Number(n) => Json::Number(match (n.as_u64(), n.as_i64(), n.as_f64()) {
            (Some(n), _, _) => Number::PosInt(n),
            (None, Some(n), _) => Number::NegInt(n),
            (None, None, n) => Number::Float(n.unwrap().to_bits()),
        }),
        Value::String(s) => Json::String(s.clone()),
        Value::Array(items) => Json::Array(items.iter().map(to_json).collect()),
        Value::Object(map) => Json::Object(
            map.iter().fold(Fields::new(), |fields, (key, v)| fields.with(key, to_json(v))),
        ),
    }
}

fn to_value(json: &Json) -> Value {
    match json {
        Json::Null => Value::Null,
        Json::Bool(b) => Value::Bool(*b),
        Json::Number(Number::PosInt(n)) => Value::from(*n),
        Json::Number(Number::NegInt(n)) => Value::from(*n),
        Json::Number(Number::Float(bits)) => Value::from(f64::from_bits(*bits)),
        Json::String(s) => Value::String(s.clone()),
        Json::Array(items) => Value::Array(items.iter().map(to_value).collect()),
        Json::Object(fields) => Value::Object(
            (0..fields.len())
                .map(|i| fields.entry(i))
                .map(|(key, v)| (key.clone(), to_value(v)))
                .collect(),
        ),
    }
}

fn json(text: &str) -> Value {
    serde_json::from_str(text).expect("valid JSON")
}

fn object(fields: Vec<(&str, Value)>) -> Value {
    Value::Object(fields.into_iter().map(|(k, v)| (k.to_string(), v)).collect())
}

fn array(items: Vec<Value>) -> Value {
    Value::Array(items)
}

fn kind(node: &Json) -> &str {
    node.text_at("type").unwrap_or("")
}

fn render_inline(nodes: &[Json]) -> String {
    nodes
        .iter()
        .map(|node| match kind(node) {
            "text" => node.list_at("marks").iter().fold(
                node.text_at("text").unwrap_or("").to_string(),
                |text, mark| match kind(mark) {
                    "bold" => format!("**{text}**"),
                    "italic" => format!("*{text}*"),
                    "strike" => format!("~~{text}~~"),
                    "code" => format!("`{text}`"),
                    "link" => {
                        let attrs = mark.get("attrs");
                        let href = attrs.and_then(|a| a.text_at("href")).unwrap_or("");
                        format!("[{text}]({href})")
                    }
                    _ => text,
                },
            ),
            "mention" => {
                let attrs = node.get("attrs");
                format!("@{}", attrs.and_then(|a| a.text_at("label")).unwrap_or(""))
            }
            "hardBreak" => "\n".to_string(),
            _ => String::new(),
        })
        .collect()
}

fn render_blocks(nodes: &[Json]) -> String {
    nodes
        .iter()
        .map(|node| {
            let content = node.list_at("content");
            match kind(node) {
                "paragraph" => render_inline(content),
                "heading" => format!("## {}", render_inline(content)),
                "codeBlock" => format!("```\n{}\n```", render_inline(content)),
                "table" => content
                    .iter()
                    .map(|row| {
                        let cells: Vec<String> = row
                            .list_at("content")
                            .iter()
                            .map(|cell| render_blocks(cell.list_at("content")))
                            .collect();
                        format!("| {} |", cells.join(" | "))
                    })
                    .collect::<Vec<_>>()
                    .join("\n"),
                _ => String::new(),
            }
        })
        .collect::<Vec<_>>()
        .join("\n\n")
}

fn node(kind: &str, content: Vec<Value>) -> Value {
    let mut fields = vec![("type", Value::from(kind))];
    if !content.is_empty() {
        fields.push(("content", Value::Array(content)));
    }
    object(fields)
}

/// Markdown into a document: paragraphs, headings, tables, and bold text.
fn parse(markdown: &str) -> Json {
    let mut stack: Vec<(String, Vec<Value>)> = vec![("doc".to_string(), Vec::new())];
    let mut bold = false;
    for event in Parser::new_ext(markdown, Options::ENABLE_TABLES) {
        match event {
            Event::Start(Tag::Strong) => bold = true,
            Event::End(TagEnd::Strong) => bold = false,
            Event::Start(tag) => stack.push((
                match tag {
                    Tag::Paragraph => "paragraph",
                    Tag::Heading { .. } => "heading",
                    Tag::CodeBlock(_) => "codeBlock",
                    Tag::Table(_) => "table",
                    Tag::TableHead | Tag::TableRow => "tableRow",
                    Tag::TableCell => "tableHeader",
                    _ => "other",
                }
                .to_string(),
                Vec::new(),
            )),
            Event::End(_) => {
                let (kind, content) = stack.pop().unwrap();
                let content = if kind == "tableHeader" && !content.is_empty() {
                    vec![node("paragraph", content)]
                } else {
                    content
                };
                stack.last_mut().unwrap().1.push(node(&kind, content));
            }
            Event::Text(t) => {
                let node = if bold {
                    text(&t, vec![json(r#"{"type":"bold"}"#)])
                } else {
                    plain(&t)
                };
                stack.last_mut().unwrap().1.push(node);
            }
            _ => {}
        }
    }
    let (kind, content) = stack.pop().unwrap();
    to_json(&node(&kind, content))
}

struct Outcome {
    doc: Value,
    changes: Vec<EditChange>,
    detached_comments: Vec<String>,
    unchanged_blocks: (usize, usize),
}

fn apply(doc: &Value, operations: Vec<EditOperation>) -> Result<Outcome, String> {
    let markdown = Markdown { inline: render_inline, blocks: render_blocks, parse };
    match apply_edits(&markdown, &to_json(doc), &operations) {
        Ok(outcome) => Ok(Outcome {
            doc: to_value(&outcome.doc),
            changes: outcome.changes,
            detached_comments: outcome.detached_comments,
            unchanged_blocks: outcome.unchanged_blocks,
        }),
        Err(error) => Err(error.message()),
    }
}

fn matches(sent: &Value, stored: &Value) -> bool {
    stored_matches_sent(&to_json(sent), &to_json(stored))
}

fn replace(find: &str, replace: &str) -> EditOperation {
    EditOperation::ReplaceText { find: find.to_string(), replace: replace.to_string() }
}

fn insert(anchor: &str, position: InsertPosition, markdown: &str) -> EditOperation {
    EditOperation::InsertBlocks {
        anchor: anchor.to_string(),
        position,
        markdown: markdown.to_string(),
    }
}

fn append(anchor: &str, row: &str) -> EditOperation {
    EditOperation::AppendTableRow { anchor: anchor.to_string(), row: row.to_string() }
}

fn comment_mark(id: &str) -> Value {
    object(vec![
        ("type", Value::from("comment")),
        ("attrs", object(vec![("commentId", Value::from(id)), ("resolved", Value::from(false))])),
    ])
}

fn bold_mark() -> Value {
    json(r#"{"type":"bold"}"#)
}

fn has_comment(value: &Value, id: &str) -> bool {
    match value {
        Value::Object(map) => {
            map.get("type").and_then(Value::as_str) == Some("comment")
                && map["attrs"]["commentId"] == id
                || map.values().any(|v| has_comment(v, id))
        }
        Value::Array(items) => items.iter().any(|v| has_comment(v, id)),
        _ => false,
    }
}

fn text(t: &str, marks: Vec<Value>) -> Value {
    object(vec![
        ("type", Value::from("text")),
        ("text", Value::from(t)),
        ("marks", Value::Array(marks)),
    ])
}

fn plain(t: &str) -> Value {
    object(vec![("type", Value::from("text")), ("text", Value::from(t))])
}

fn para(content: Vec<Value>) -> Value {
    object(vec![
        ("type", Value::from("paragraph")),
        ("attrs", json(r#"{"textAlign":null}"#)),
        ("content", Value::Array(content)),
    ])
}

fn cell(kind: &str, t: &str) -> Value {
    object(vec![
        ("type", Value::from(kind)),
        ("attrs", json(r#"{"colspan":1,"rowspan":1,"colwidth":[120]}"#)),
        ("content", array(vec![para(vec![plain(t)])])),
    ])
}

fn row(kind: &str, cells: &[&str]) -> Value {
    object(vec![
        ("type", Value::from("tableRow")),
        ("content", Value::Array(cells.iter().map(|t| cell(kind, t)).collect())),
    ])
}

/// A page with every node kind the edit must leave alone.
fn page() -> Value {
    object(vec![
        ("type", Value::from("doc")),
        (
            "content",
            array(vec![
                object(vec![
                    ("type", Value::from("heading")),
                    ("attrs", json(r#"{"level":2,"id":"h1"}"#)),
                    ("content", array(vec![plain("IDR-023")])),
                ]),
                para(vec![
                    plain("The only host rule is the ceiling, which "),
                    text("blocks no range", vec![bold_mark()]),
                    plain(". Use "),
                    text("Caddy or nginx (QUIC)", vec![comment_mark("c1")]),
                    plain(" as proxy, ask "),
                    json(
                        r#"{"type":"mention","attrs":{"id":"m1","label":"Alice","entityType":"user","entityId":"u1"}}"#,
                    ),
                    plain("."),
                ]),
                object(vec![
                    ("type", Value::from("callout")),
                    ("attrs", json(r#"{"type":"info"}"#)),
                    ("content", array(vec![para(vec![plain("RabbitMQ note")])])),
                ]),
                object(vec![
                    ("type", Value::from("codeBlock")),
                    ("attrs", json(r#"{"language":"mermaid"}"#)),
                    (
                        "content",
                        array(vec![plain("graph TD\n  WIN -->|RFC1918 blocked| NET")]),
                    ),
                ]),
                object(vec![
                    ("type", Value::from("table")),
                    (
                        "content",
                        array(vec![
                            row("tableHeader", &["Version", "Date", "Change"]),
                            row("tableCell", &["0.26", "2026-09-20", "Older"]),
                            object(vec![
                                ("type", Value::from("tableRow")),
                                (
                                    "content",
                                    array(vec![
                                        cell("tableCell", "0.27"),
                                        cell("tableCell", "2026-09-23"),
                                        object(vec![
                                            ("type", Value::from("tableCell")),
                                            (
                                                "attrs",
                                                json(
                                                    r#"{"colspan":1,"rowspan":1,"colwidth":[300]}"#,
                                                ),
                                            ),
                                            (
                                                "content",
                                                array(vec![para(vec![text(
                                                    "on password change",
                                                    vec![comment_mark("c2")],
                                                )])]),
                                            ),
                                        ]),
                                    ]),
                                ),
                            ]),
                        ]),
                    ),
                ]),
            ]),
        ),
    ])
}

fn block(doc: &Value, index: usize) -> &Value {
    &doc["content"][index]
}

/// Markdown has no form for a comment mark, so a body that is rebuilt from Markdown loses every
/// inline comment thread.
#[test]
fn markdown_round_trip_drops_comment_marks() {
    let doc = json(
        r#"{"type":"doc","content":[{"type":"paragraph","content":[
            {"type":"text","text":"Caddy or nginx (QUIC)","marks":[
                {"type":"comment","attrs":{"commentId":"c1","resolved":false}}]}]}]}"#,
    );
    assert!(has_comment(&doc, "c1"));
    let markdown = Markdown { inline: render_inline, blocks: render_blocks, parse };
    let rendered = markdown.convert_nodes(to_json(&doc).list_at("content"));
    assert_eq!(rendered, "Caddy or nginx (QUIC)");
    let round_trip = to_value(&markdown.markdown_to_prosemirror(&rendered));
    assert!(!has_comment(&round_trip, "c1"));
}

#[test]
fn replace_keeps_every_other_node_and_mark() {
    let before = page();
    let outcome =
        apply(&before, vec![replace("The only host rule is", "The only host rule was")]).unwrap();
    for index in [0, 2, 3, 4] {
        assert_eq!(block(&outcome.doc, index), block(&before, index), "block {index} changed");
    }
    let (old, new) = (&block(&before, 1)["content"], &block(&outcome.doc, 1)["content"]);
    assert_eq!(new[0], plain("The only host rule was"));
    assert_eq!(new[1], plain(" the ceiling, which "));
    for index in 1..old.as_array().unwrap().len() {
        assert_eq!(new[index + 1], old[index], "inline node {index} changed");
    }
    assert!(outcome.detached_comments.is_empty());
    assert_eq!(outcome.unchanged_blocks, (4, 5));
}

#[test]
fn span_inside_one_commented_text_node_keeps_the_comment() {
    let outcome = apply(&page(), vec![replace("nginx", "HAProxy")]).unwrap();
    let inline = &block(&outcome.doc, 1)["content"];
    let marks = vec![comment_mark("c1")];
    assert_eq!(inline[3], text("Caddy or ", marks.clone()));
    assert_eq!(inline[4], text("HAProxy", marks.clone()));
    assert_eq!(inline[5], text(" (QUIC)", marks));
    assert!(outcome.detached_comments.is_empty());
}

#[test]
fn span_across_marks_is_replaced_with_the_new_marks() {
    let outcome = apply(
        &page(),
        vec![replace("which **blocks no range**. Use", "which **blocked nothing**. Use")],
    )
    .unwrap();
    let inline = &block(&outcome.doc, 1)["content"];
    assert_eq!(inline[0], plain("The only host rule is the ceiling, "));
    assert_eq!(inline[1], plain("which "));
    assert_eq!(inline[2], text("blocked nothing", vec![bold_mark()]));
    assert_eq!(inline[3], plain(". Use"));
    assert_eq!(inline[4], plain(" "));
    assert_eq!(inline[5], block(&page(), 1)["content"][3]);
}

#[test]
fn span_inside_bold_inherits_bold() {
    let outcome = apply(&page(), vec![replace("no range", "every range")]).unwrap();
    let inline = &block(&outcome.doc, 1)["content"];
    assert_eq!(inline[1], text("blocks ", vec![bold_mark()]));
    assert_eq!(inline[2], text("every range", vec![bold_mark()]));
}

#[test]
fn find_that_cuts_mark_syntax_fails() {
    let error = apply(&page(), vec![replace("*blocks no", "x")]).err().unwrap();
    assert!(error.contains("inside Markdown syntax"), "{error}");
}

#[test]
fn zero_or_two_matches_fail_with_the_count() {
    let zero = apply(&page(), vec![replace("absent", "x")]);
    assert!(zero.err().unwrap().contains("matches 0 times"));
    let two = apply(&page(), vec![replace("RFC1918", "x")]);
    assert!(two.is_ok(), "only the mermaid block has RFC1918");
    let two = apply(&page(), vec![replace("0.2", "x")]);
    assert!(two.err().unwrap().contains("matches 2 times"));
}

#[test]
fn a_failing_later_operation_fails_the_whole_edit() {
    let error = apply(&page(), vec![replace("The only", "One"), replace("absent", "x")])
        .err()
        .unwrap();
    assert!(error.starts_with("operation 2 failed, nothing written"), "{error}");
}

#[test]
fn partial_overlap_with_a_comment_is_reported_as_detached() {
    let outcome =
        apply(&page(), vec![replace(". Use Caddy or nginx (QUIC) as", ". Use Caddy as")]).unwrap();
    assert_eq!(outcome.detached_comments, vec!["c1".to_string()]);
}

#[test]
fn append_table_row_adds_a_fresh_row_and_keeps_the_others() {
    let before = page();
    let outcome = apply(
        &before,
        vec![append("| 0.27 |", "| 0.28 | 2026-09-24 | **IDR-025** added |")],
    )
    .unwrap();
    let (old, new) = (&block(&before, 4)["content"], &block(&outcome.doc, 4)["content"]);
    assert_eq!(new.as_array().unwrap().len(), 4);
    for index in 0..3 {
        assert_eq!(new[index], old[index], "row {index} changed");
    }
    let added = &new[3]["content"];
    assert_eq!(added[0]["type"], "tableCell");
    assert_eq!(added[2]["attrs"]["colwidth"], json("[300]"));
    assert_eq!(added[2]["content"][0]["content"][0], text("IDR-025", vec![bold_mark()]));
    assert!(!has_comment(&new[3], "c2"), "a comment mark must never be copied");
}

#[test]
fn whole_row_replace_keeps_unchanged_cells_and_adds_rows() {
    let before = page();
    let outcome = apply(
        &before,
        vec![replace(
            "| 0.27 | 2026-09-23 | on password change |",
            "| 0.27 | 2026-09-24 | on password change |\n| 0.28 | 2026-09-24 | new |",
        )],
    )
    .unwrap();
    let (old, new) =
        (&block(&before, 4)["content"][2]["content"], &block(&outcome.doc, 4)["content"]);
    assert_eq!(new[2]["content"][0], old[0]);
    assert_eq!(new[2]["content"][2], old[2], "the commented cell must stay as is");
    assert_eq!(new[2]["content"][1]["content"][0]["content"][0], plain("2026-09-24"));
    assert_eq!(new[3]["content"][2]["content"][0]["content"][0], plain("new"));
    assert!(outcome.detached_comments.is_empty());
}

#[test]
fn row_with_wrong_cell_count_fails() {
    let error = apply(&page(), vec![append("| 0.27 |", "| 0.28 | too few |")]).err().unwrap();
    assert!(error.contains("3 cells"), "{error}");
}

#[test]
fn insert_blocks_lands_after_the_anchor_block() {
    let before = page();
    let outcome = apply(
        &before,
        vec![insert(
            "IDR-023",
            InsertPosition::After,
            "### IDR-025 — New\n\nBody **text**.",
        )],
    )
    .unwrap();
    let content = outcome.doc["content"].as_array().unwrap();
    assert_eq!(content.len(), 7);
    assert_eq!(content[0], *block(&before, 0));
    assert_eq!(content[1]["type"], "heading");
    assert_eq!(content[2]["type"], "paragraph");
    assert_eq!(&content[3..], &before["content"].as_array().unwrap()[1..]);
    let ambiguous = apply(&before, vec![insert("0.2", InsertPosition::Before, "x")]);
    assert!(ambiguous.err().unwrap().contains("matches 2 times"));
}

#[test]
fn code_block_replace_is_literal() {
    let outcome =
        apply(&page(), vec![replace("RFC1918 blocked", "**non-global** dropped")]).unwrap();
    assert_eq!(
        block(&outcome.doc, 3)["content"],
        array(vec![
            plain("graph TD\n  WIN -->|"),
            plain("**non-global** dropped"),
            plain("| NET"),
        ])
    );
}

#[test]
fn row_appended_after_a_header_row_is_a_body_row() {
    let outcome =
        apply(&page(), vec![append("| Version |", "| 0.1 | 2026-01-01 | First |")]).unwrap();
    let added = &block(&outcome.doc, 4)["content"][1]["content"];
    assert!(added.as_array().unwrap().iter().all(|cell| cell["type"] == "tableCell"));
}

/// The server stores new nodes with default attrs the writer never sets.
#[test]
fn stored_copy_with_server_defaults_matches_what_was_sent() {
    let sent = object(vec![
        ("type", Value::from("doc")),
        (
            "content",
            array(vec![
                object(vec![
                    ("type", Value::from("heading")),
                    ("attrs", json(r#"{"level":3}"#)),
                    ("content", array(vec![plain("IDR-025")])),
                ]),
                object(vec![
                    ("type", Value::from("paragraph")),
                    (
                        "content",
                        array(vec![
                            text(
                                "Taiga",
                                vec![json(
                                    r#"{"type":"link","attrs":{"href":"https://x.test/1"}}"#,
                                )],
                            ),
                            text("bold", vec![bold_mark()]),
                        ]),
                    ),
                ]),
            ]),
        ),
    ]);
    let stored = object(vec![
        ("type", Value::from("doc")),
        (
            "content",
            array(vec![
                object(vec![
                    ("type", Value::from("heading")),
                    ("attrs", json(r#"{"level":3,"indent":0}"#)),
                    ("content", array(vec![plain("IDR-025")])),
                ]),
                object(vec![
                    ("type", Value::from("paragraph")),
                    ("attrs", json(r#"{"indent":0}"#)),
                    (
                        "content",
                        array(vec![
                            text(
                                "Taiga",
                                vec![json(
                                    r#"{"type":"link","attrs":{"href":"https://x.test/1","target":"_blank",
                                    "rel":"noopener noreferrer nofollow","class":null,"title":null,"internal":false}}"#,
                                )],
                            ),
                            text("bold", vec![json(r#"{"type":"bold","attrs":{}}"#)]),
                        ]),
                    ),
                ]),
            ]),
        ),
    ]);
    assert!(matches(&sent, &stored));

    let mut changed_text = stored.clone();
    changed_text["content"][1]["content"][1]["text"] = Value::from("bolder");
    assert!(!matches(&sent, &changed_text));

    let mut changed_attr = stored.clone();
    changed_attr["content"][0]["attrs"]["level"] = Value::from(2);
    assert!(!matches(&sent, &changed_attr));

    let mut extra_block = stored.clone();
    extra_block["content"]
        .as_array_mut()
        .unwrap()
        .insert(0, json(r#"{"type":"paragraph","attrs":{"indent":0}}"#));
    assert!(!matches(&sent, &extra_block), "an editor's empty paragraph must be reported");

    let mut dropped_mark = stored.clone();
    dropped_mark["content"][1]["content"][1]["marks"] = array(vec![]);
    assert!(!matches(&sent, &dropped_mark));
}
