//! A stored document that passes for the one that was sent differs from it in added attributes
//! alone.

use vstd::prelude::*;

use crate::json::Tree;
use crate::node::{kids, kind, marks};
use crate::operations::lemma_kinds_differ;
use crate::stored::{attrs_match, matches_sent};

verus! {

/// What was sent passes for itself.
pub proof fn law_what_was_sent_passes(t: Tree)
    ensures
        matches_sent(t, t),
    decreases t,
{
    match t {
        Tree::Object(m) => {
            assert forall|k: Seq<char>| #[trigger] m.contains_key(k) implies matches_sent(
                m[k],
                m[k],
            ) by {
                law_what_was_sent_passes(t->Object_0[k]);
            }
            assert(attrs_match(t, t));
        },
        Tree::Array(s) => {
            assert forall|i: int| 0 <= i < s.len() implies matches_sent(#[trigger] s[i], s[i]) by {
                law_what_was_sent_passes(t->Array_0[i]);
            }
        },
        _ => {},
    }
}

/// Every field but `attrs` that was sent is stored and passes, and no other one is stored.
pub proof fn law_every_field_passes(sent: Tree, stored: Tree, key: Seq<char>)
    requires
        matches_sent(sent, stored),
        key != "attrs"@,
    ensures
        sent.field(key) is Some <==> stored.field(key) is Some,
        sent.field(key) is Some ==> matches_sent(sent.field(key)->0, stored.field(key)->0),
        sent is Object <==> stored is Object,
{
    lemma_field(sent, stored, key);
}

/// What is no object and no array passes for nothing but itself, and an array for one of the same
/// length whose items pass.
pub proof fn law_plain_values_pass_for_themselves(sent: Tree, stored: Tree)
    ensures
        !(sent is Object) && !(sent is Array) ==> (matches_sent(sent, stored) <==> sent == stored),
        !(stored is Object) && !(stored is Array) ==> (matches_sent(sent, stored) <==> sent
            == stored),
        sent matches Tree::Array(a) ==> (matches_sent(sent, stored) <==> {
            &&& stored matches Tree::Array(b)
            &&& a.len() == b.len()
            &&& forall|i: int| 0 <= i < a.len() ==> matches_sent(#[trigger] a[i], b[i])
        }),
{
}

/// Two objects with the same keys but for `attrs`, whose other fields pass, pass if the stored
/// attributes hold the sent ones with equal values, or if none were sent and an object is stored.
pub proof fn law_passing_is_built_up(a: Map<Seq<char>, Tree>, b: Map<Seq<char>, Tree>)
    requires
        forall|k: Seq<char>| k != "attrs"@ ==> (#[trigger] a.contains_key(k) <==> b.contains_key(k)),
        forall|k: Seq<char>| #[trigger]
            a.contains_key(k) && k != "attrs"@ ==> matches_sent(a[k], b[k]),
        ({
            ||| !a.contains_key("attrs"@) && !b.contains_key("attrs"@)
            ||| !a.contains_key("attrs"@) && b.contains_key("attrs"@) && b["attrs"@] is Object
            ||| a.contains_key("attrs"@) && b.contains_key("attrs"@) && a["attrs"@] == b["attrs"@]
            ||| {
                &&& a.contains_key("attrs"@) && b.contains_key("attrs"@)
                &&& a["attrs"@] is Object && b["attrs"@] is Object
                &&& forall|k: Seq<char>| #[trigger]
                    a["attrs"@]->Object_0.contains_key(k) ==> b["attrs"@]->Object_0.contains_key(k)
                        && b["attrs"@]->Object_0[k] == a["attrs"@]->Object_0[k]
            }
        }),
    ensures
        matches_sent(Tree::Object(a), Tree::Object(b)),
{
    assert(a.dom().remove("attrs"@) =~= b.dom().remove("attrs"@)) by {
        assert forall|k: Seq<char>| a.dom().remove("attrs"@).contains(k) <==> b.dom().remove(
            "attrs"@,
        ).contains(k) by {
            if k != "attrs"@ {
                assert(a.contains_key(k) <==> b.contains_key(k));
            }
        }
    }
    assert(attrs_match(Tree::Object(a), Tree::Object(b)));
}

/// Attributes that were sent are not dropped, and are not stored as something else.
pub proof fn law_attributes_are_not_dropped(sent: Tree, stored: Tree)
    requires
        matches_sent(sent, stored),
    ensures
        sent.field("attrs"@) is Some ==> stored.field("attrs"@) is Some,
        sent.field("attrs"@) matches Some(a) && !(a is Object) ==> stored.field("attrs"@)
            == sent.field("attrs"@),
        sent.field("attrs"@) matches Some(a) && a is Object ==> stored.field("attrs"@)->0 is Object,
        sent is Object && sent.field("attrs"@) is None && stored.field("attrs"@) is Some
            ==> stored.field("attrs"@)->0 is Object,
{
    if sent is Object {
        assert(attrs_match(sent, stored));
    }
}

/// A field that passes is there on both sides or on neither.
proof fn lemma_field(sent: Tree, stored: Tree, key: Seq<char>)
    requires
        matches_sent(sent, stored),
        key != "attrs"@,
    ensures
        sent.field(key) is Some <==> stored.field(key) is Some,
        sent.field(key) is Some ==> matches_sent(sent.field(key)->0, stored.field(key)->0),
{
    match (sent, stored) {
        (Tree::Object(a), Tree::Object(b)) => {
            assert(a.dom().remove("attrs"@).contains(key) <==> a.contains_key(key));
            assert(b.dom().remove("attrs"@).contains(key) <==> b.contains_key(key));
            if a.contains_key(key) {
                assert(matches_sent(a[key], b[key]));
            }
        },
        (Tree::Array(a), Tree::Array(b)) => {},
        _ => {
            if sent is Object || stored is Object {
                assert(sent == stored);
            }
        },
    }
}

/// What passes has the type, the text, and the numbers of children and marks that were sent, and
/// each child and mark passes for the one that was sent. So a changed text, a dropped mark and an
/// added block do not pass.
pub proof fn law_what_passes_is_the_same(sent: Tree, stored: Tree)
    requires
        matches_sent(sent, stored),
    ensures
        kind(stored) == kind(sent),
        stored.text_field("text"@) == sent.text_field("text"@),
        kids(stored).len() == kids(sent).len(),
        marks(stored).len() == marks(sent).len(),
        forall|i: int|
            0 <= i < kids(sent).len() ==> matches_sent(#[trigger] kids(sent)[i], kids(stored)[i]),
        forall|i: int|
            0 <= i < marks(sent).len() ==> matches_sent(
                #[trigger] marks(sent)[i],
                marks(stored)[i],
            ),
{
    reveal_strlit("attrs");
    reveal_strlit("type");
    reveal_strlit("text");
    reveal_strlit("marks");
    lemma_kinds_differ();
    assert("attrs"@.len() == 5);
    assert("type"@.len() == 4);
    assert("text"@.len() == 4);
    assert("attrs"@[0] != "marks"@[0]);
    lemma_field(sent, stored, "type"@);
    lemma_field(sent, stored, "text"@);
    lemma_field(sent, stored, "content"@);
    lemma_field(sent, stored, "marks"@);
}

/// What passes holds every attribute that was sent, with an equal value.
pub proof fn law_sent_attributes_are_stored(sent: Tree, stored: Tree, key: Seq<char>)
    requires
        matches_sent(sent, stored),
        sent.field("attrs"@) matches Some(attrs) && attrs.field(key) is Some,
    ensures
        ({
            let was = sent.field("attrs"@)->0.field(key)->0;
            let now = stored.field("attrs"@)->0.field(key)->0;
            &&& stored.field("attrs"@) matches Some(attrs) && attrs.field(key) is Some
            &&& now == was
        }),
{
    assert(attrs_match(sent, stored));
}

/// A value with more attributes than were sent passes.
pub proof fn law_added_attributes_pass(
    fields: Map<Seq<char>, Tree>,
    more: Map<Seq<char>, Tree>,
)
    requires
        !fields.contains_key("attrs"@) || ({
            &&& fields["attrs"@] is Object
            &&& forall|k: Seq<char>| #[trigger]
                fields["attrs"@]->Object_0.contains_key(k) ==> more.contains_key(k) && more[k]
                    == fields["attrs"@]->Object_0[k]
        }),
    ensures
        matches_sent(
            Tree::Object(fields),
            Tree::Object(fields.insert("attrs"@, Tree::Object(more))),
        ),
{
    let sent = Tree::Object(fields);
    let wider = fields.insert("attrs"@, Tree::Object(more));
    let stored = Tree::Object(wider);
    assert(attrs_match(sent, stored));
    assert(fields.dom().remove("attrs"@) =~= wider.dom().remove("attrs"@));
    assert forall|k: Seq<char>| #[trigger] fields.contains_key(k) && k
        != "attrs"@ implies matches_sent(fields[k], wider[k]) by {
        law_what_was_sent_passes(fields[k]);
    }
}

/// What passes for a value that passes, passes.
pub proof fn law_passing_is_transitive(a: Tree, b: Tree, c: Tree)
    requires
        matches_sent(a, b),
        matches_sent(b, c),
    ensures
        matches_sent(a, c),
    decreases a,
{
    match (a, b, c) {
        (Tree::Object(x), Tree::Object(y), Tree::Object(z)) => {
            assert(attrs_match(a, b) && attrs_match(b, c));
            if let (Some(Tree::Object(p)), Some(Tree::Object(q)), Some(Tree::Object(r))) = (
                a.field("attrs"@),
                b.field("attrs"@),
                c.field("attrs"@),
            ) {
                assert forall|k: Seq<char>| #[trigger] p.contains_key(k) implies r.contains_key(k)
                    && r[k] == p[k] by {
                    assert(q.contains_key(k));
                }
            }
            assert(attrs_match(a, c));
            assert forall|k: Seq<char>| #[trigger] x.contains_key(k) && k
                != "attrs"@ implies matches_sent(x[k], z[k]) by {
                assert(x.dom().remove("attrs"@).contains(k));
                assert(y.contains_key(k));
                law_passing_is_transitive(a->Object_0[k], y[k], z[k]);
            }
        },
        (Tree::Array(x), Tree::Array(y), Tree::Array(z)) => {
            assert forall|i: int| 0 <= i < x.len() implies matches_sent(#[trigger] x[i], z[i]) by {
                assert(matches_sent(x[i], y[i]));
                assert(matches_sent(y[i], z[i]));
                law_passing_is_transitive(a->Array_0[i], y[i], z[i]);
            }
        },
        _ => {},
    }
}

/// Two values that pass for each other are equal.
pub proof fn law_passing_both_ways_is_equality(a: Tree, b: Tree)
    requires
        matches_sent(a, b),
        matches_sent(b, a),
    ensures
        a == b,
    decreases a,
{
    match (a, b) {
        (Tree::Object(x), Tree::Object(y)) => {
            let (p, q) = (a.field("attrs"@), b.field("attrs"@));
            assert(attrs_match(a, b) && attrs_match(b, a));
            if let (Some(Tree::Object(v)), Some(Tree::Object(w))) = (p, q) {
                assert forall|k: Seq<char>| v.contains_key(k) <==> w.contains_key(k) by {
                    assert(v.contains_key(k) ==> w.contains_key(k));
                    assert(w.contains_key(k) ==> v.contains_key(k));
                }
                assert(v =~= w);
            }
            assert(p == q);
            assert forall|k: Seq<char>| x.contains_key(k) <==> y.contains_key(k) by {
                assert(x.dom().remove("attrs"@).contains(k) <==> y.dom().remove(
                    "attrs"@,
                ).contains(k));
            }
            assert forall|k: Seq<char>| #[trigger] x.contains_key(k) implies x[k] == y[k] by {
                if k != "attrs"@ {
                    assert(y.contains_key(k));
                    law_passing_both_ways_is_equality(a->Object_0[k], y[k]);
                }
            }
            assert(x =~= y);
        },
        (Tree::Array(x), Tree::Array(y)) => {
            assert forall|i: int| 0 <= i < x.len() implies x[i] == y[i] by {
                assert(matches_sent(x[i], y[i]));
                assert(matches_sent(y[i], x[i]));
                law_passing_both_ways_is_equality(a->Array_0[i], y[i]);
            }
            assert(x =~= y);
        },
        _ => {},
    }
}

} // verus!
