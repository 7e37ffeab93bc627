//! In-place edits on a ProseMirror document. Only the matched range changes: every other node
//! and mark (comment marks, callouts, mentions, attrs) is kept as is.
//!
//! Matching runs against the Markdown that the reader renders, per block.

use vstd::prelude::*;

use crate::comments::{comment_set, detached};
use crate::failure::{EditError, Failure};
use crate::json::{trees, Json, Tree};
use crate::markdown::{Dialect, Markdown};
use crate::node::{children, is_a, kids};
use crate::operations::{is_doc, lemma_doc_stays, operation_result};
use crate::order::ascending;
use crate::spacing::texts;
use crate::types::{changes, Change, EditChange, EditOperation, EditOutcome};

verus! {

/// What the first `n` operations make of a document: each applies to what the one before it
/// made. The first one that does not apply fails them all, and is named by its number, counted
/// from one.
pub open spec fn edited(d: Dialect, doc: Tree, operations: Seq<EditOperation>, n: nat) -> Result<
    (Tree, Seq<Change>),
    (nat, Failure<Seq<char>, nat>),
>
    decreases n,
{
    if n == 0 {
        Ok((doc, Seq::empty()))
    } else {
        match edited(d, doc, operations, (n - 1) as nat) {
            Ok((before, done)) => match operation_result(d, before, operations[n - 1]) {
                Ok((after, change)) => Ok((after, done.push(change))),
                Err(f) => Err((n, f)),
            },
            Err(e) => Err(e),
        }
    }
}

/// Where `x` next stands in `s`, at `from` or later; the length of `s` if it does not.
pub open spec fn next_of(s: Seq<Tree>, x: Tree, from: int) -> int
    decreases s.len() - from,
{
    if from >= s.len() {
        s.len() as int
    } else if s[from] == x {
        from
    } else {
        next_of(s, x, from + 1)
    }
}

/// Where the search goes on in `after` once the first `n` items of `before` have been looked
/// for in it, one after the other.
pub open spec fn search_from(before: Seq<Tree>, after: Seq<Tree>, n: nat) -> int
    decreases n,
{
    if n == 0 {
        0
    } else {
        let from = search_from(before, after, (n - 1) as nat);
        let at = next_of(after, before[n - 1], from);
        if at < after.len() {
            at + 1
        } else {
            from
        }
    }
}

/// How many of the first `n` items of `before` are found unchanged, in order, in `after`. Each
/// is taken where it first stands after the one found before it.
pub open spec fn unchanged(before: Seq<Tree>, after: Seq<Tree>, n: nat) -> nat
    decreases n,
{
    if n == 0 {
        0
    } else {
        let from = search_from(before, after, (n - 1) as nat);
        let here: nat = if next_of(after, before[n - 1], from) < after.len() {
            1
        } else {
            0
        };
        unchanged(before, after, (n - 1) as nat) + here
    }
}

/// Where `x` next stands.
pub proof fn lemma_next_of(s: Seq<Tree>, x: Tree, from: int)
    requires
        0 <= from <= s.len(),
    ensures
        from <= next_of(s, x, from) <= s.len(),
        next_of(s, x, from) < s.len() ==> s[next_of(s, x, from)] == x,
        forall|j: int| from <= j < next_of(s, x, from) ==> #[trigger] s[j] != x,
    decreases s.len() - from,
{
    if from < s.len() && s[from] != x {
        lemma_next_of(s, x, from + 1);
    }
}

pub proof fn lemma_search_from(before: Seq<Tree>, after: Seq<Tree>, n: nat)
    ensures
        0 <= search_from(before, after, n) <= after.len(),
        unchanged(before, after, n) <= n,
        unchanged(before, after, n) <= search_from(before, after, n),
    decreases n,
{
    if n > 0 {
        lemma_search_from(before, after, (n - 1) as nat);
        lemma_next_of(after, before[n - 1], search_from(before, after, (n - 1) as nat));
    }
}

/// Top-level blocks of `before` found unchanged, in order, in `after`.
pub fn count_unchanged(before: &[Json], after: &[Json]) -> (r: usize)
    ensures
        r == unchanged(trees(before@), trees(after@), before@.len()),
{
    let ghost a = trees(before@);
    let ghost b = trees(after@);
    let mut next: usize = 0;
    let mut count: usize = 0;
    let mut i: usize = 0;
    while i < before.len()
        invariant
            i <= before@.len(),
            next <= after@.len(),
            count <= i,
            a == trees(before@),
            b == trees(after@),
            next == search_from(a, b, i as nat),
            count == unchanged(a, b, i as nat),
        decreases before@.len() - i,
    {
        let ghost from = next as int;
        let mut at: usize = next;
        assert(a[i as int] == before@[i as int]@);
        while at < after.len() && !after[at].same(&before[i])
            invariant
                next <= at <= after@.len(),
                i < before@.len(),
                from == next,
                a == trees(before@),
                b == trees(after@),
                next_of(b, a[i as int], at as int) == next_of(b, a[i as int], from),
                a[i as int] == before@[i as int]@,
            ensures
                next <= at <= after@.len(),
                at == next_of(b, a[i as int], from),
            decreases after@.len() - at,
        {
            assert(b[at as int] == after@[at as int]@);
            at = at + 1;
        }
        if at < after.len() {
            next = at + 1;
            count = count + 1;
        }
        i = i + 1;
    }
    count
}

/// A failure stays.
proof fn lemma_edit_error(
    d: Dialect,
    doc: Tree,
    operations: Seq<EditOperation>,
    i: nat,
    n: nat,
)
    requires
        i <= n,
        edited(d, doc, operations, i) is Err,
    ensures
        edited(d, doc, operations, n) == edited(d, doc, operations, i),
    decreases n - i,
{
    if i < n {
        lemma_edit_error(d, doc, operations, i, (n - 1) as nat);
    }
}

/// The outcome of edits that all apply.
pub open spec fn is_outcome(
    d: Dialect,
    doc: Tree,
    operations: Seq<EditOperation>,
    outcome: EditOutcome,
) -> bool {
    &&& is_doc(doc)
    &&& edited(d, doc, operations, operations.len()) == Ok::<
        (Tree, Seq<Change>),
        (nat, Failure<Seq<char>, nat>),
    >((outcome.doc@, changes(outcome.changes@)))
    &&& ascending(texts(outcome.detached_comments@))
    &&& texts(outcome.detached_comments@).to_set() == comment_set(doc).difference(
        comment_set(outcome.doc@),
    )
    &&& outcome.unchanged_blocks.0 == unchanged(kids(doc), kids(outcome.doc@), kids(doc).len())
    &&& outcome.unchanged_blocks.1 == kids(doc).len()
}

/// The error of edits that do not all apply.
pub open spec fn is_error(
    d: Dialect,
    doc: Tree,
    operations: Seq<EditOperation>,
    error: EditError,
) -> bool {
    match error {
        EditError::NotADocument => !is_doc(doc),
        EditError::Operation { number, cause } => {
            &&& is_doc(doc)
            &&& edited(d, doc, operations, operations.len()) == Err::<
                (Tree, Seq<Change>),
                (nat, Failure<Seq<char>, nat>),
            >((number as nat, cause@))
        },
    }
}

/// Apply `operations` in order. Fails on the first one that does not apply exactly once, so a
/// caller never writes a partly edited document.
pub fn apply_edits<I: Fn(&[Json]) -> String, B: Fn(&[Json]) -> String, P: Fn(&str) -> Json>(
    markdown: &Markdown<I, B, P>,
    doc: &Json,
    operations: &[EditOperation],
) -> (r: Result<EditOutcome, EditError>)
    requires
        markdown.well_defined(),
    ensures
        match r {
            Ok(outcome) => is_outcome(markdown.dialect(), doc@, operations@, outcome),
            Err(error) => is_error(markdown.dialect(), doc@, operations@, error),
        },
{
    let ghost d = markdown.dialect();
    if !is_a(doc, "doc") {
        return Err(EditError::NotADocument);
    }
    let mut now: Json = doc.clone();
    let mut done: Vec<EditChange> = Vec::new();
    let mut i: usize = 0;
    assert(changes(done@) =~= Seq::<Change>::empty());
    while i < operations.len()
        invariant
            i <= operations@.len(),
            markdown.well_defined(),
            d == markdown.dialect(),
            is_doc(doc@),
            is_doc(now@),
            edited(d, doc@, operations@, i as nat) == Ok::<
                (Tree, Seq<Change>),
                (nat, Failure<Seq<char>, nat>),
            >((now@, changes(done@))),
        decreases operations@.len() - i,
    {
        let ghost before = changes(done@);
        proof {
            lemma_doc_stays(d, now@, operations@[i as int]);
        }
        match markdown.apply_operation(&now, &operations[i]) {
            Ok((after, change)) => {
                done.push(change);
                assert(changes(done@) =~= before.push(change@));
                now = after;
            },
            Err(cause) => {
                proof {
                    lemma_edit_error(d, doc@, operations@, (i + 1) as nat, operations@.len());
                }
                return Err(EditError::Operation { number: i + 1, cause });
            },
        }
        i = i + 1;
    }
    let detached_comments: Vec<String> = detached(doc, &now);
    let (old, new): (&[Json], &[Json]) = (children(doc), children(&now));
    assert(trees(old@).len() == old@.len());
    let unchanged_blocks: (usize, usize) = (count_unchanged(old, new), old.len());
    Ok(EditOutcome { doc: now, changes: done, detached_comments, unchanged_blocks })
}

} // verus!
