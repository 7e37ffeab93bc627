# docmost_local_mcp

In-place edits of Docmost pages, verified with Verus.

A page is a ProseMirror document, held as JSON. `edit::apply_edits` replaces a span of text or a
table row, inserts Markdown blocks next to a block, or appends table rows. An edit finds its place
by the Markdown that a reader renders for the page, must match exactly once, and changes nothing
but the matched range. `page_write` decides what to do with a request: report, write, or refuse.

- `src/`: the library. `json` holds values and the mathematical trees that contracts speak of;
  `markdown` the reader and parser that are handed in; `node`, `text`, `spacing`, `marks`,
  `spans`, `inline`, `rows` the parts of an edit; `operations` and `edit` the edits; `comments`
  and `order` the comment threads; `stored` the check of what was stored; `page_write` the
  decisions of the page tools; `laws` what holds of them all.
- `tests/`: tests.
- `app/`: the MCP tools around the library.
