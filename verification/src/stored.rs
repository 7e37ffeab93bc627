//! Whether a stored document is what was sent.

use vstd::prelude::*;
use vstd::set_lib::*;

use crate::json::{lemma_array, trees, Fields, Json, Tree};
use crate::text::same_text;

verus! {

/// The `attrs` that were stored hold those that were sent, with equal values. They may hold more,
/// and a value sent without `attrs` may be stored with some.
pub open spec fn attrs_match(sent: Tree, stored: Tree) -> bool {
    let a = sent.field("attrs"@);
    let b = stored.field("attrs"@);
    match (a, b) {
        (Some(Tree::Object(x)), Some(Tree::Object(y))) => forall|k: Seq<char>| #[trigger]
            x.contains_key(k) ==> y.contains_key(k) && y[k] == x[k],
        (None, None) => true,
        (None, Some(Tree::Object(_))) => true,
        _ => a == b,
    }
}

/// A stored value is the one that was sent, with no more than `attrs` keys added.
pub open spec fn matches_sent(sent: Tree, stored: Tree) -> bool
    decreases sent,
{
    match (sent, stored) {
        (Tree::Object(a), Tree::Object(b)) => {
            &&& attrs_match(sent, stored)
            &&& a.dom().remove("attrs"@) == b.dom().remove("attrs"@)
            &&& forall|k: Seq<char>| #[trigger]
                a.contains_key(k) && k != "attrs"@ ==> matches_sent(a[k], b[k])
        },
        (Tree::Array(a), Tree::Array(b)) => {
            &&& a.len() == b.len()
            &&& forall|i: int| 0 <= i < a.len() ==> matches_sent(#[trigger] a[i], b[i])
        },
        _ => sent == stored,
    }
}

/// Every sent attribute is stored, with an equal value. What is stored under other keys does not
/// matter.
fn holds_attrs(sent: &Fields, stored: &Fields) -> (r: bool)
    ensures
        r == (forall|k: Seq<char>| #[trigger]
            sent@.contains_key(k) ==> stored@.contains_key(k) && stored@[k] == sent@[k]),
{
    let n: usize = sent.len();
    let mut i: usize = 0;
    while i < n
        invariant
            i <= n,
            n == sent@.dom().len(),
            forall|j: int|
                0 <= j < i ==> stored@.contains_key(#[trigger] sent.key(j))
                    && stored@[sent.key(j)] == sent@[sent.key(j)],
        decreases n - i,
    {
        let (key, value): (&String, &Json) = sent.entry(i);
        match stored.get(key.as_str()) {
            Some(found) => {
                if !value.same(found) {
                    return false;
                }
            },
            None => {
                return false;
            },
        }
        i = i + 1;
    }
    true
}

/// Every sent field but `attrs` is stored.
fn holds_fields(sent: &Fields, stored: &Fields) -> (r: bool)
    ensures
        r == (forall|k: Seq<char>| #[trigger]
            sent@.contains_key(k) && k != "attrs"@ ==> stored@.contains_key(k) && matches_sent(
                sent@[k],
                stored@[k],
            )),
    decreases sent, 0nat,
{
    let n: usize = sent.len();
    let mut i: usize = 0;
    while i < n
        invariant
            i <= n,
            n == sent@.dom().len(),
            forall|j: int|
                0 <= j < i && #[trigger] sent.key(j) != "attrs"@ ==> stored@.contains_key(
                    sent.key(j),
                ) && matches_sent(sent@[sent.key(j)], stored@[sent.key(j)]),
        decreases n - i,
    {
        let (key, value): (&String, &Json) = sent.entry(i);
        if !same_text(key.as_str(), "attrs") {
            match stored.get(key.as_str()) {
                Some(found) => {
                    if !stored_matches_sent(value, found) {
                        return false;
                    }
                },
                None => {
                    return false;
                },
            }
        }
        i = i + 1;
    }
    true
}

/// Two sets that agree but for one item, by their sizes.
proof fn lemma_same_but_one(a: Set<Seq<char>>, b: Set<Seq<char>>, x: Seq<char>)
    requires
        a.finite(),
        b.finite(),
        a.remove(x).subset_of(b),
        a.contains(x) ==> b.contains(x),
    ensures
        a.len() + (if !a.contains(x) && b.contains(x) {
            1int
        } else {
            0int
        }) == b.len() <==> a.remove(x) == b.remove(x),
{
    let (c, e) = (a.remove(x), b.remove(x));
    assert(c.subset_of(e));
    if c.len() == e.len() {
        lemma_subset_equality(c, e);
    }
}

/// Whether the stored document is what was sent, allowing only the `attrs` keys the server
/// adds as defaults. Every text, type, mark, child and attr value that was sent must be equal.
pub fn stored_matches_sent(sent: &Json, stored: &Json) -> (r: bool)
    ensures
        r == matches_sent(sent@, stored@),
    decreases sent, 1nat,
{
    match (sent, stored) {
        (Json::Object(a), Json::Object(b)) => {
            let (x, y): (Option<&Json>, Option<&Json>) = (a.get("attrs"), b.get("attrs"));
            let attrs_ok: bool = match (x, y) {
                (Some(Json::Object(p)), Some(Json::Object(q))) => holds_attrs(p, q),
                (None, None) => true,
                (None, Some(Json::Object(_))) => true,
                (Some(p), Some(q)) => p.same(q),
                _ => false,
            };
            proof {
                let (p, q) = (sent@.field("attrs"@), stored@.field("attrs"@));
                assert(p == match x {
                    Some(v) => Some(v@),
                    None => None,
                });
                assert(q == match y {
                    Some(v) => Some(v@),
                    None => None,
                });
                if let (Some(Json::Object(c)), Some(Json::Object(e))) = (x, y) {
                    let (held, there) = (p->0->Object_0, q->0->Object_0);
                    assert(held == c@ && there == e@);
                    assert(attrs_match(sent@, stored@) == forall|k: Seq<char>| #[trigger]
                        held.contains_key(k) ==> there.contains_key(k) && there[k] == held[k]);
                }
                assert(attrs_ok == attrs_match(sent@, stored@));
            }
            let fields_ok: bool = holds_fields(a, b);
            proof {
                if matches_sent(sent@, stored@) {
                    assert forall|k: Seq<char>| #[trigger]
                        a@.contains_key(k) && k != "attrs"@ implies b@.contains_key(k) by {
                        assert(a@.dom().remove("attrs"@).contains(k));
                        assert(b@.dom().remove("attrs"@).contains(k));
                    }
                }
            }
            if !attrs_ok || !fields_ok {
                return false;
            }
            let added: bool = x.is_none() && y.is_some();
            let (n, m): (usize, usize) = (a.len(), b.len());
            proof {
                assert(a@.dom().remove("attrs"@).subset_of(b@.dom())) by {
                    assert forall|k: Seq<char>| a@.dom().remove("attrs"@).contains(
                        k,
                    ) implies b@.dom().contains(k) by {
                        assert(a@.contains_key(k));
                    }
                }
                lemma_same_but_one(a@.dom(), b@.dom(), "attrs"@);
            }
            if added {
                m > 0 && n == m - 1
            } else {
                n == m
            }
        },
        (Json::Array(a), Json::Array(b)) => {
            proof {
                lemma_array(*a);
                lemma_array(*b);
            }
            if a.len() != b.len() {
                return false;
            }
            let mut i: usize = 0;
            while i < a.len()
                invariant
                    i <= a@.len(),
                    a@.len() == b@.len(),
                    *sent == Json::Array(*a),
                    sent@ == Tree::Array(trees(a@)),
                    stored@ == Tree::Array(trees(b@)),
                    forall|j: int|
                        0 <= j < i ==> matches_sent(#[trigger] trees(a@)[j], trees(b@)[j]),
                decreases a@.len() - i,
            {
                proof {
                    lemma_array(*a);
                    assert(trees(a@)[i as int] == a@[i as int]@);
                    assert(trees(b@)[i as int] == b@[i as int]@);
                }
                if !stored_matches_sent(&a[i], &b[i]) {
                    return false;
                }
                i = i + 1;
            }
            true
        },
        _ => sent.same(stored),
    }
}

} // verus!
