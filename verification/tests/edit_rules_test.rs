use docmost_local_mcp::edit::apply_edits;
use docmost_local_mcp::failure::{EditError, Failure};
use docmost_local_mcp::json::{Fields, Json, Number};
use docmost_local_mcp::markdown::Markdown;
use docmost_local_mcp::types::{EditChange, EditOperation, InsertPosition};
use pulldown_cmark::{Event, Options, Parser, Tag, TagEnd};
use serde_json::Value;

fn to_json(value: &Value) -> Json {
    match value {
        Value::Null => Json::Null,
        Value::Bool(b) => Json::Bool(*b),
        Value::Number(n) => Json::Number(match (n.as_u64(), n.as_i64(), n.as_f64()) {
            (Some(n), _, _) => Number::PosInt(n),
            (None, Some(n), _) => Number::NegInt(n),
            (None, None, n) => Number::Float(n.unwrap().to_bits()),
        }),
        Value::String(s) => Json::String(s.clone()),
        Value::Array(items) => Json::Array(items.iter().map(to_json).collect()),
        Value::Object(map) => Json::Object(
            map.iter().fold(Fields::new(), |fields, (key, v)| fields.with(key, to_json(v))),
        ),
    }
}

fn to_value(json: &Json) -> Value {
    match json {
        Json::Null => Value::Null,
        Json::Bool(b) => Value::Bool(*b),
        Json::Number(Number::PosInt(n)) => Value::from(*n),
        Json::Number(Number::NegInt(n)) => Value::from(*n),
        Json::Number(Number::Float(bits)) => Value::from(f64::from_bits(*bits)),
        Json::String(s) => Value::String(s.clone()),
        Json::Array(items) => Value::Array(items.iter().map(to_value).collect()),
        Json::Object(fields) => Value::Object(
            (0..fields.len())
                .map(|i| fields.entry(i))
                .map(|(key, v)| (key.clone(), to_value(v)))
                .collect(),
        ),
    }
}

fn json(text: &str) -> Value {
    serde_json::from_str(text).expect("valid JSON")
}

fn object(fields: Vec<(&str, Value)>) -> Value {
    Value::Object(fields.into_iter().map(|(k, v)| (k.to_string(), v)).collect())
}

fn array(items: Vec<Value>) -> Value {
    Value::Array(items)
}

fn kind(node: &Json) -> &str {
    node.text_at("type").unwrap_or("")
}

fn render_inline(nodes: &[Json]) -> String {
    nodes
        .iter()
        .map(|node| match kind(node) {
            "text" => node.list_at("marks").iter().fold(
                node.text_at("text").unwrap_or("").to_string(),
                |text, mark| match kind(mark) {
                    "bold" => format!("**{text}**"),
                    "italic" => format!("*{text}*"),
                    "strike" => format!("~~{text}~~"),
                    "code" => format!("`{text}`"),
                    "link" => {
                        let attrs = mark.get("attrs");
                        let href = attrs.and_then(|a| a.text_at("href")).unwrap_or("");
                        format!("[{text}]({href})")
                    }
                    _ => text,
                },
            ),
            "mention" => {
                let attrs = node.get("attrs");
                format!("@{}", attrs.and_then(|a| a.text_at("label")).unwrap_or(""))
            }
            "hardBreak" => "\n".to_string(),
            _ => String::new(),
        })
        .collect()
}

fn render_blocks(nodes: &[Json]) -> String {
    nodes
        .iter()
        .map(|node| {
            let content = node.list_at("content");
            match kind(node) {
                "paragraph" => render_inline(content),
                "heading" => format!("## {}", render_inline(content)),
                "codeBlock" => format!("```\n{}\n```", render_inline(content)),
                "table" => content
                    .iter()
                    .map(|row| {
                        let cells: Vec<String> = row
                            .list_at("content")
                            .iter()
                            .map(|cell| render_blocks(cell.list_at("content")))
                            .collect();
                        format!("| {} |", cells.join(" | "))
                    })
                    .collect::<Vec<_>>()
                    .join("\n"),
                _ => String::new(),
            }
        })
        .collect::<Vec<_>>()
        .join("\n\n")
}

fn node(kind: &str, content: Vec<Value>) -> Value {
    let mut fields = vec![("type", Value::from(kind))];
    if !content.is_empty() {
        fields.push(("content", Value::Array(content)));
    }
    object(fields)
}

/// Markdown into a document: paragraphs, headings, tables, and bold text.
fn parse(markdown: &str) -> Json {
    let mut stack: Vec<(String, Vec<Value>)> = vec![("doc".to_string(), Vec::new())];
    let mut bold = false;
    for event in Parser::new_ext(markdown, Options::ENABLE_TABLES) {
        match event {
            Event::Start(Tag::Strong) => bold = true,
            Event::End(TagEnd::Strong) => bold = false,
            Event::Start(tag) => stack.push((
                match tag {
                    Tag::Paragraph => "paragraph",
                    Tag::Heading { .. } => "heading",
                    Tag::CodeBlock(_) => "codeBlock",
                    Tag::Table(_) => "table",
                    Tag::TableHead | Tag::TableRow => "tableRow",
                    Tag::TableCell => "tableHeader",
                    _ => "other",
                }
                .to_string(),
                Vec::new(),
            )),
            Event::End(_) => {
                let (kind, content) = stack.pop().unwrap();
                let content = if kind == "tableHeader" && !content.is_empty() {
                    vec![node("paragraph", content)]
                } else {
                    content
                };
                stack.last_mut().unwrap().1.push(node(&kind, content));
            }
            Event::Text(t) => {
                let node = if bold {
                    text(&t, vec![json(r#"{"type":"bold"}"#)])
                } else {
                    plain(&t)
                };
                stack.last_mut().unwrap().1.push(node);
            }
            _ => {}
        }
    }
    let (kind, content) = stack.pop().unwrap();
    to_json(&node(&kind, content))
}

struct Outcome {
    doc: Value,
    changes: Vec<EditChange>,
    detached_comments: Vec<String>,
    unchanged_blocks: (usize, usize),
}

fn apply(doc: &Value, operations: Vec<EditOperation>) -> Result<Outcome, String> {
    let markdown = Markdown { inline: render_inline, blocks: render_blocks, parse };
    match apply_edits(&markdown, &to_json(doc), &operations) {
        Ok(outcome) => Ok(Outcome {
            doc: to_value(&outcome.doc),
            changes: outcome.changes,
            detached_comments: outcome.detached_comments,
            unchanged_blocks: outcome.unchanged_blocks,
        }),
        Err(error) => Err(error.message()),
    }
}

fn replace(find: &str, replace: &str) -> EditOperation {
    EditOperation::ReplaceText { find: find.to_string(), replace: replace.to_string() }
}

fn insert(anchor: &str, position: InsertPosition, markdown: &str) -> EditOperation {
    EditOperation::InsertBlocks {
        anchor: anchor.to_string(),
        position,
        markdown: markdown.to_string(),
    }
}

fn append(anchor: &str, row: &str) -> EditOperation {
    EditOperation::AppendTableRow { anchor: anchor.to_string(), row: row.to_string() }
}

fn comment_mark(id: &str) -> Value {
    object(vec![
        ("type", Value::from("comment")),
        ("attrs", object(vec![("commentId", Value::from(id)), ("resolved", Value::from(false))])),
    ])
}

fn bold_mark() -> Value {
    json(r#"{"type":"bold"}"#)
}

fn text(t: &str, marks: Vec<Value>) -> Value {
    object(vec![
        ("type", Value::from("text")),
        ("text", Value::from(t)),
        ("marks", Value::Array(marks)),
    ])
}

fn plain(t: &str) -> Value {
    object(vec![("type", Value::from("text")), ("text", Value::from(t))])
}

fn para(content: Vec<Value>) -> Value {
    object(vec![
        ("type", Value::from("paragraph")),
        ("attrs", json(r#"{"textAlign":null}"#)),
        ("content", Value::Array(content)),
    ])
}

fn cell(kind: &str, t: &str) -> Value {
    object(vec![
        ("type", Value::from(kind)),
        ("attrs", json(r#"{"colspan":1,"rowspan":1,"colwidth":[120]}"#)),
        ("content", array(vec![para(vec![plain(t)])])),
    ])
}

fn row(kind: &str, cells: &[&str]) -> Value {
    object(vec![
        ("type", Value::from("tableRow")),
        ("content", Value::Array(cells.iter().map(|t| cell(kind, t)).collect())),
    ])
}

fn block(doc: &Value, index: usize) -> &Value {
    &doc["content"][index]
}

fn doc(blocks: Vec<Value>) -> Value {
    object(vec![("type", Value::from("doc")), ("content", array(blocks))])
}

fn table(rows: Vec<Value>) -> Value {
    object(vec![("type", Value::from("table")), ("content", array(rows))])
}

fn failure(doc: &Value, operation: EditOperation) -> String {
    apply(doc, vec![operation]).err().unwrap()
}

#[test]
fn each_operation_sees_what_the_one_before_made() {
    let page = doc(vec![para(vec![plain("one two")])]);
    let outcome = apply(&page, vec![replace("one", "three"), replace("three two", "four")]).unwrap();
    assert_eq!(outcome.doc, doc(vec![para(vec![plain("four")])]));
    assert_eq!(outcome.changes.len(), 2);
    assert_eq!(outcome.changes[0].before, "one two");
    assert_eq!(outcome.changes[0].after, "three two");
    assert_eq!(outcome.changes[1].before, "three two");
    assert_eq!(outcome.changes[1].after, "four");
    assert_eq!(outcome.unchanged_blocks, (0, 1));
    let error = apply(&page, vec![replace("one", "three"), replace("one", "x")]).err().unwrap();
    assert_eq!(
        error,
        "operation 2 failed, nothing written: `find` matches 0 times, expected exactly 1: \"one\""
    );
}

#[test]
fn no_operations_leave_the_page_alone() {
    let page = doc(vec![para(vec![text("x", vec![comment_mark("c")])]), para(vec![plain("y")])]);
    let outcome = apply(&page, vec![]).unwrap();
    assert_eq!(outcome.doc, page);
    assert!(outcome.changes.is_empty());
    assert!(outcome.detached_comments.is_empty());
    assert_eq!(outcome.unchanged_blocks, (2, 2));
}

#[test]
fn only_documents_are_edited() {
    let markdown = Markdown { inline: render_inline, blocks: render_blocks, parse };
    let error = apply_edits(&markdown, &to_json(&para(vec![])), &[]).err().unwrap();
    assert!(matches!(error, EditError::NotADocument));
    assert_eq!(error.message(), "the page content is not a ProseMirror document");
}

#[test]
fn empty_texts_are_refused() {
    let page = doc(vec![para(vec![plain("x")])]);
    assert_eq!(
        failure(&page, replace("", "y")),
        "operation 1 failed, nothing written: `find` is empty"
    );
    assert_eq!(
        failure(&page, insert("", InsertPosition::After, "y")),
        "operation 1 failed, nothing written: `anchor` is empty"
    );
    assert_eq!(
        failure(&page, append("", "| y |")),
        "operation 1 failed, nothing written: `anchor` is empty"
    );
}

#[test]
fn overlapping_matches_count() {
    let page = doc(vec![para(vec![plain("aaa")])]);
    assert_eq!(
        failure(&page, replace("aa", "b")),
        "operation 1 failed, nothing written: `find` matches 2 times, expected exactly 1: \"aa\""
    );
}

#[test]
fn anchors_match_once_or_fail_with_the_count() {
    let page = doc(vec![
        para(vec![plain("a a")]),
        table(vec![row("tableCell", &["b", "b"]), row("tableCell", &["c", "d"])]),
    ]);
    assert_eq!(
        failure(&page, insert("a", InsertPosition::Before, "x")),
        "operation 1 failed, nothing written: `anchor` matches 2 times in top-level blocks, \
         expected exactly 1: \"a\""
    );
    assert_eq!(
        failure(&page, append("b", "| x | y |")),
        "operation 1 failed, nothing written: `anchor` matches 2 times in table rows, expected \
         exactly 1: \"b\""
    );
    assert_eq!(
        failure(&page, append("a", "| x | y |")),
        "operation 1 failed, nothing written: `anchor` matches 0 times in table rows, expected \
         exactly 1: \"a\""
    );
}

#[test]
fn a_node_without_markdown_form_is_not_deleted() {
    let page = doc(vec![para(vec![plain("one "), json(r#"{"type":"anchor"}"#), plain("two")])]);
    assert_eq!(
        failure(&page, replace("one two", "x")),
        "operation 1 failed, nothing written: the match contains a `anchor` node that has no \
         Markdown form and would be deleted"
    );
    let page = doc(vec![para(vec![plain("one "), json("{}"), plain("two")])]);
    assert_eq!(
        failure(&page, replace("one two", "x")),
        "operation 1 failed, nothing written: the match contains a `unknown` node that has no \
         Markdown form and would be deleted"
    );
}

#[test]
fn an_invisible_node_next_to_the_match_stays() {
    let hidden = json(r#"{"type":"anchor"}"#);
    let page = doc(vec![para(vec![plain("one"), hidden.clone(), plain("two")])]);
    let outcome = apply(&page, vec![replace("two", "x")]).unwrap();
    assert_eq!(block(&outcome.doc, 0)["content"], array(vec![plain("one"), hidden, plain("x")]));
}

#[test]
fn a_match_inside_syntax_is_refused_with_advice() {
    let page = doc(vec![para(vec![text("bold", vec![bold_mark()])])]);
    assert_eq!(
        failure(&page, replace("**bo", "x")),
        "operation 1 failed, nothing written: `find` starts or ends inside Markdown syntax (between \
         a `**`, `` ` `` or `[` and its text); widen or narrow it to whole marks: \"**bo\""
    );
}

#[test]
fn a_replacement_is_one_paragraph() {
    let page = doc(vec![para(vec![plain("x")])]);
    let message = "operation 1 failed, nothing written: `replace` must be inline Markdown (one \
                   paragraph); use insert_blocks for new blocks";
    assert_eq!(failure(&page, replace("x", "a\n\nb")), message);
    assert_eq!(failure(&page, replace("x", "# a")), message);
}

#[test]
fn markdown_without_blocks_is_not_inserted() {
    let page = doc(vec![para(vec![plain("x")])]);
    assert_eq!(
        failure(&page, insert("x", InsertPosition::After, "  ")),
        "operation 1 failed, nothing written: `markdown` produced no blocks"
    );
}

#[test]
fn rows_are_given_and_have_the_right_shape() {
    let page = doc(vec![table(vec![row("tableCell", &["a", "b"])])]);
    assert_eq!(
        failure(&page, append("a", " \n\n")),
        "operation 1 failed, nothing written: no table row given"
    );
    assert_eq!(
        failure(&page, append("a", "| x | y |\nno row")),
        "operation 1 failed, nothing written: expected one Markdown table row with 2 cells: \
         \"no row\""
    );
}

#[test]
fn white_space_around_new_text_is_kept() {
    let page = doc(vec![para(vec![plain("a-b")])]);
    let outcome = apply(&page, vec![replace("-", "  **x**\t")]).unwrap();
    assert_eq!(
        block(&outcome.doc, 0)["content"],
        array(vec![
            plain("a"),
            plain("  "),
            text("x", vec![bold_mark()]),
            plain("\t"),
            plain("b"),
        ])
    );
    let outcome = apply(&page, vec![replace("-", " \n ")]).unwrap();
    assert_eq!(
        block(&outcome.doc, 0)["content"],
        array(vec![plain("a"), plain(" \n "), plain("b")])
    );
    let outcome = apply(&page, vec![replace("-", "")]).unwrap();
    assert_eq!(block(&outcome.doc, 0)["content"], array(vec![plain("a"), plain("b")]));
}

#[test]
fn text_is_cut_between_characters() {
    let page = doc(vec![para(vec![plain("äöü€")])]);
    let outcome = apply(&page, vec![replace("öü", "😀")]).unwrap();
    assert_eq!(
        block(&outcome.doc, 0)["content"],
        array(vec![plain("ä"), plain("😀"), plain("€")])
    );
}

#[test]
fn two_threads_on_the_same_text_both_stay() {
    let marks = vec![comment_mark("c1"), comment_mark("c2"), bold_mark()];
    let page = doc(vec![para(vec![text("old words", marks.clone())])]);
    let outcome = apply(&page, vec![replace("old words", "new words")]).unwrap();
    assert_eq!(block(&outcome.doc, 0)["content"], array(vec![text("new words", marks)]));
    assert!(outcome.detached_comments.is_empty());
}

#[test]
fn a_mark_that_find_spells_out_goes() {
    let page = doc(vec![para(vec![text("old", vec![bold_mark(), comment_mark("c")])])]);
    let outcome = apply(&page, vec![replace("**old**", "new")]).unwrap();
    assert_eq!(
        block(&outcome.doc, 0)["content"],
        array(vec![text("new", vec![comment_mark("c")])])
    );
}

#[test]
fn lost_threads_are_listed_once_and_in_order() {
    let page = doc(vec![
        para(vec![
            text("b", vec![comment_mark("t2")]),
            text("a", vec![comment_mark("t1")]),
            text("b", vec![comment_mark("t2")]),
            text("c", vec![comment_mark("t3")]),
        ]),
        para(vec![text("d", vec![comment_mark("t3")])]),
    ]);
    let outcome = apply(&page, vec![replace("babc", "x")]).unwrap();
    assert_eq!(outcome.detached_comments, vec!["t1".to_string(), "t2".to_string()]);
}

#[test]
fn an_atom_with_a_text_field_is_kept_whole() {
    let atom = json(r#"{"type":"mention","text":"shown elsewhere","attrs":{"label":"A"}}"#);
    let page = doc(vec![para(vec![plain("x "), atom.clone(), plain(" y")])]);
    let outcome = apply(&page, vec![replace("x", "z")]).unwrap();
    assert_eq!(
        block(&outcome.doc, 0)["content"],
        array(vec![plain("z"), plain(" "), atom, plain(" y")])
    );
}

#[test]
fn an_empty_text_node_outside_the_match_stays() {
    let page = doc(vec![para(vec![plain(""), plain("x"), plain("")])]);
    let outcome = apply(&page, vec![replace("x", "z")]).unwrap();
    assert_eq!(
        block(&outcome.doc, 0)["content"],
        array(vec![plain(""), plain("z"), plain("")])
    );
}

#[test]
fn an_empty_text_node_inside_the_match_is_not_deleted() {
    let page = doc(vec![para(vec![plain("x"), plain(""), plain("y")])]);
    assert_eq!(
        failure(&page, replace("xy", "z")),
        "operation 1 failed, nothing written: the match contains a `text` node that has no \
         Markdown form and would be deleted"
    );
}

#[test]
fn blocks_land_on_the_side_that_is_asked_for() {
    let page = doc(vec![para(vec![plain("one")]), para(vec![plain("two")])]);
    let before = apply(&page, vec![insert("two", InsertPosition::Before, "x\n\ny")]).unwrap();
    assert_eq!(before.doc["content"].as_array().unwrap().len(), 4);
    assert_eq!(block(&before.doc, 0), block(&page, 0));
    assert_eq!(block(&before.doc, 1)["content"][0], plain("x"));
    assert_eq!(block(&before.doc, 2)["content"][0], plain("y"));
    assert_eq!(block(&before.doc, 3), block(&page, 1));
    assert_eq!(before.unchanged_blocks, (2, 2));
    assert_eq!(
        before.changes,
        vec![EditChange {
            description: "insert_blocks: before block /content/1 \"two\"".to_string(),
            before: String::new(),
            after: "x\n\ny".to_string(),
        }]
    );
    let after = apply(&page, vec![insert("two", InsertPosition::After, "x")]).unwrap();
    assert_eq!(block(&after.doc, 2)["content"][0], plain("x"));
    assert_eq!(
        after.changes[0].description,
        "insert_blocks: after block /content/1 \"two\""
    );
}

#[test]
fn changes_say_what_was_replaced() {
    let page = doc(vec![
        para(vec![plain("one two")]),
        table(vec![row("tableHeader", &["h", "i"]), row("tableCell", &["a", "b  c"])]),
    ]);
    let outcome = apply(
        &page,
        vec![
            replace("two", "2"),
            replace("| a | b c |", "| a | d |\n\n| e | f |"),
            append("| a |", "| g | h |"),
        ],
    )
    .unwrap();
    assert_eq!(
        outcome.changes,
        vec![
            EditChange {
                description: "replace_text: paragraph at /content/0".to_string(),
                before: "one two".to_string(),
                after: "one 2".to_string(),
            },
            EditChange {
                description: "replace_text: table row at /content/1/content/1".to_string(),
                before: "| a | b c |".to_string(),
                after: "| a | d |\n| e | f |".to_string(),
            },
            EditChange {
                description: "append_table_row: after row /content/1/content/1 \"| a | d |\""
                    .to_string(),
                before: String::new(),
                after: "| g | h |".to_string(),
            },
        ]
    );
    let rows = block(&outcome.doc, 1)["content"].as_array().unwrap().clone();
    assert_eq!(rows.len(), 4);
    assert_eq!(rows[2]["content"][0]["content"][0]["content"][0], plain("g"));
    assert_eq!(rows[3]["content"][0]["content"][0]["content"][0], plain("e"));
}

#[test]
fn a_replaced_header_row_stays_one_and_further_rows_do_not() {
    let page = doc(vec![table(vec![row("tableHeader", &["a", "b"])])]);
    let outcome = apply(&page, vec![replace("| a | b |", "| a | c |\n| d | e |")]).unwrap();
    let rows = &block(&outcome.doc, 0)["content"];
    assert_eq!(rows[0]["content"][0], cell("tableHeader", "a"));
    assert_eq!(rows[0]["content"][1]["type"], "tableHeader");
    assert_eq!(rows[0]["content"][1]["attrs"], cell("tableHeader", "c")["attrs"]);
    assert_eq!(rows[1]["content"][0]["type"], "tableCell");
    assert_eq!(rows[1]["content"][1]["attrs"], cell("tableCell", "e")["attrs"]);
}

#[test]
fn a_mixed_row_is_no_header_row() {
    let mut mixed = row("tableCell", &["a", "b"]);
    mixed["content"][0]["type"] = Value::from("tableHeader");
    let page = doc(vec![table(vec![mixed])]);
    let outcome = apply(&page, vec![append("| a |", "| c | d |")]).unwrap();
    let added = &block(&outcome.doc, 0)["content"][1]["content"];
    assert_eq!(added[0]["type"], "tableHeader");
    assert_eq!(added[1]["type"], "tableCell");
}

#[test]
fn an_empty_cell_gets_an_empty_paragraph() {
    let page = doc(vec![table(vec![row("tableCell", &["a", "b"])])]);
    let outcome = apply(&page, vec![append("| a |", "| c |  |")]).unwrap();
    let added = &block(&outcome.doc, 0)["content"][1]["content"];
    assert_eq!(added[1]["content"], json(r#"[{"type":"paragraph"}]"#));
}

#[test]
fn comment_marks_of_rows_and_cells_are_not_copied() {
    let highlight = json(r#"{"type":"highlight"}"#);
    let mut marked = row("tableCell", &["a", "b"]);
    marked["marks"] = array(vec![comment_mark("r")]);
    marked["content"][0]["marks"] = array(vec![comment_mark("c"), highlight.clone()]);
    marked["content"][1]["content"][0]["content"][0]["marks"] = array(vec![comment_mark("t")]);
    let page = doc(vec![table(vec![marked.clone()])]);
    let outcome = apply(&page, vec![append("| a |", "| c | d |")]).unwrap();
    let rows = &block(&outcome.doc, 0)["content"];
    assert_eq!(rows[0], marked);
    assert_eq!(rows[1]["marks"], array(vec![]));
    assert_eq!(rows[1]["content"][0]["marks"], array(vec![highlight.clone()]));
    assert_eq!(rows[1]["content"][0]["attrs"], marked["content"][0]["attrs"]);
    assert_eq!(rows[1]["content"][1].get("marks"), None);
    let outcome = apply(&page, vec![replace("| a | b |", "| x | b |\n| y | z |")]).unwrap();
    let rows = &block(&outcome.doc, 0)["content"];
    assert_eq!(rows[0]["marks"], array(vec![comment_mark("r")]));
    assert_eq!(rows[0]["content"][0]["marks"], array(vec![comment_mark("c"), highlight.clone()]));
    assert_eq!(rows[0]["content"][1], marked["content"][1]);
    assert_eq!(rows[1]["marks"], array(vec![]));
    assert_eq!(rows[1]["content"][0]["marks"], array(vec![highlight]));
    assert!(outcome.detached_comments.is_empty());
}

#[test]
fn two_lines_append_like_one_by_one() {
    let page = doc(vec![table(vec![
        row("tableHeader", &["k", "v"]),
        row("tableCell", &["a", "b"]),
        row("tableCell", &["y", "z"]),
    ])]);
    let at_once = apply(&page, vec![append("| a |", "| c | d |\n| e | f |")]).unwrap();
    let one_by_one =
        apply(&page, vec![append("| a |", "| e | f |"), append("| a |", "| c | d |")]).unwrap();
    assert_eq!(at_once.doc, one_by_one.doc);
    let rows = block(&at_once.doc, 0)["content"].as_array().unwrap();
    let firsts: Vec<&Value> =
        rows.iter().map(|r| &r["content"][0]["content"][0]["content"][0]["text"]).collect();
    assert_eq!(firsts, ["k", "a", "c", "e", "y"]);
}

#[test]
fn a_parsed_row_of_another_length_is_refused() {
    let parse = |_: &str| {
        to_json(&doc(vec![table(vec![row("tableHeader", &["x", "y"])])]))
    };
    let markdown = Markdown { inline: render_inline, blocks: render_blocks, parse };
    let page = |cells: &[&str]| to_json(&doc(vec![table(vec![row("tableCell", cells)])]));
    for cells in [&["a"][..], &["a", "b", "c"][..]] {
        let error =
            apply_edits(&markdown, &page(cells), &[append("a", "| x | y |")]).err().unwrap();
        assert!(matches!(
            error,
            EditError::Operation { number: 1, cause: Failure::RowShape { .. } }
        ));
    }
    assert!(apply_edits(&markdown, &page(&["a", "b"]), &[append("a", "| x | y |")]).is_ok());
}

#[test]
fn a_row_that_holds_no_nodes_is_refused() {
    let mut odd = row("tableCell", &["a", "b"]);
    odd["content"].as_array_mut().unwrap().push(Value::from("c"));
    let page = doc(vec![table(vec![odd])]);
    assert_eq!(
        failure(&page, append("| a |", "| x | y | z |")),
        "operation 1 failed, nothing written: a table row holds a value that is not a node"
    );
}

#[test]
fn a_match_that_only_the_whole_block_shows_is_refused() {
    let inline = |nodes: &[Json]| match nodes.len() {
        1 => String::new(),
        _ => render_inline(nodes),
    };
    let markdown = Markdown { inline, blocks: render_blocks, parse };
    let page = doc(vec![para(vec![plain("x"), plain("y")])]);
    let error = apply_edits(&markdown, &to_json(&page), &[replace("xy", "z")]).err().unwrap();
    assert!(matches!(error, EditError::Operation { number: 1, cause: Failure::Misaligned }));
    assert_eq!(
        error.message(),
        "operation 1 failed, nothing written: the rendering of the block does not line up with \
         its nodes"
    );
}

#[test]
fn unchanged_blocks_are_found_in_order() {
    let (a, b) = (para(vec![plain("a a")]), para(vec![plain("b")]));
    let page = doc(vec![a.clone(), b.clone(), json(r#"{"type":"horizontalRule"}"#)]);
    let outcome = apply(&page, vec![replace("b", "c")]).unwrap();
    assert_eq!(outcome.unchanged_blocks, (2, 3));
    let page = doc(vec![para(vec![plain("x"), plain("")]), b, para(vec![plain("y")])]);
    let outcome = apply(&page, vec![replace("x", "y")]).unwrap();
    assert_eq!(outcome.unchanged_blocks, (2, 3));
}

#[test]
fn a_thread_next_to_the_edit_stays_where_it_was() {
    let page = doc(vec![
        para(vec![plain("one "), text("two", vec![comment_mark("c1")]), plain(" three")]),
        table(vec![object(vec![
            ("type", Value::from("tableRow")),
            (
                "content",
                array(vec![
                    cell("tableCell", "k"),
                    object(vec![
                        ("type", Value::from("tableCell")),
                        (
                            "content",
                            array(vec![para(vec![text("v", vec![comment_mark("c2")])])]),
                        ),
                    ]),
                ]),
            ),
        ])]),
    ]);
    let outcome = apply(
        &page,
        vec![
            replace("one", "1"),
            replace("three", "3"),
            append("| k |", "| l | w |"),
            insert("two", InsertPosition::Before, "top"),
        ],
    )
    .unwrap();
    assert!(outcome.detached_comments.is_empty());
    assert_eq!(block(&outcome.doc, 1)["content"][2], block(&page, 0)["content"][1]);
    assert_eq!(block(&outcome.doc, 2)["content"][0], block(&page, 1)["content"][0]);
}
