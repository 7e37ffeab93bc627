//! The order of strings, and sorted lists of them.

use vstd::prelude::*;

use crate::spacing::texts;
use crate::text::chars;

verus! {

/// `a` comes before `b`: by the first character in which they differ, or as a part of it.
pub open spec fn precedes(a: Seq<char>, b: Seq<char>) -> bool
    decreases a.len(),
{
    if b.len() == 0 {
        false
    } else if a.len() == 0 {
        true
    } else if a[0] != b[0] {
        a[0] < b[0]
    } else {
        precedes(a.drop_first(), b.drop_first())
    }
}

/// Sorted, and each item once.
pub open spec fn ascending(s: Seq<Seq<char>>) -> bool {
    forall|i: int, j: int| 0 <= i < j < s.len() ==> precedes(s[i], s[j])
}

pub proof fn lemma_precedes_trans(a: Seq<char>, b: Seq<char>, c: Seq<char>)
    requires
        precedes(a, b),
        precedes(b, c),
    ensures
        precedes(a, c),
    decreases a.len(),
{
    if a.len() > 0 && a[0] == b[0] && b[0] == c[0] {
        lemma_precedes_trans(a.drop_first(), b.drop_first(), c.drop_first());
    }
}

pub proof fn lemma_precedes_total(a: Seq<char>, b: Seq<char>)
    ensures
        precedes(a, b) || precedes(b, a) || a == b,
        !(precedes(a, b) && precedes(b, a)),
        !precedes(a, a),
    decreases a.len(),
{
    if a.len() > 0 && b.len() > 0 && a[0] == b[0] {
        lemma_precedes_total(a.drop_first(), b.drop_first());
        if a.drop_first() == b.drop_first() {
            assert(a =~= b) by {
                assert(a =~= seq![a[0]] + a.drop_first());
                assert(b =~= seq![b[0]] + b.drop_first());
            }
        }
    } else if a.len() == 0 && b.len() == 0 {
        assert(a =~= b);
    }
    if a.len() > 0 {
        lemma_precedes_total(a.drop_first(), a.drop_first());
    }
}

/// Two ascending lists of the same items are the same list.
pub proof fn lemma_ascending_unique(s: Seq<Seq<char>>, t: Seq<Seq<char>>)
    requires
        ascending(s),
        ascending(t),
        s.to_set() == t.to_set(),
    ensures
        s == t,
    decreases s.len(),
{
    assert forall|x: Seq<char>| s.contains(x) <==> t.contains(x) by {
        assert(s.to_set().contains(x) <==> s.contains(x));
        assert(t.to_set().contains(x) <==> t.contains(x));
    }
    if s.len() == 0 {
        if t.len() > 0 {
            assert(t.contains(t[0]));
        }
        assert(s =~= t);
    } else {
        assert(s.contains(s.last()));
        assert(t.contains(s.last()));
        let j = choose|j: int| 0 <= j < t.len() && t[j] == s.last();
        assert(t.contains(t.last()));
        let i = choose|i: int| 0 <= i < s.len() && s[i] == t.last();
        if j < t.len() - 1 {
            assert(precedes(t[j], t.last()));
            if i < s.len() - 1 {
                assert(precedes(s[i], s.last()));
            }
            lemma_precedes_total(s.last(), t.last());
        }
        assert(s.last() == t.last());
        let (a, b) = (s.drop_last(), t.drop_last());
        assert(a.to_set() =~= b.to_set()) by {
            assert forall|x: Seq<char>| a.to_set().contains(x) <==> b.to_set().contains(x) by {
                lemma_drop_last_items(s, x);
                lemma_drop_last_items(t, x);
            }
        }
        lemma_ascending_unique(a, b);
        assert(s =~= a.push(s.last()));
        assert(t =~= b.push(t.last()));
    }
}

proof fn lemma_drop_last_items(s: Seq<Seq<char>>, x: Seq<char>)
    requires
        ascending(s),
        s.len() > 0,
    ensures
        s.drop_last().contains(x) <==> s.contains(x) && x != s.last(),
{
    let a = s.drop_last();
    if a.contains(x) {
        let i = choose|i: int| 0 <= i < a.len() && a[i] == x;
        assert(s[i] == x);
        assert(precedes(s[i], s[s.len() - 1]));
        lemma_precedes_total(x, s.last());
    }
    if s.contains(x) && x != s.last() {
        let i = choose|i: int| 0 <= i < s.len() && s[i] == x;
        assert(a[i] == x);
    }
}

/// Whether `a` comes before `b`.
fn is_before(a: &str, b: &str) -> (r: bool)
    ensures
        r == precedes(a@, b@),
{
    let (x, y): (Vec<char>, Vec<char>) = (chars(a), chars(b));
    let mut i: usize = 0;
    assert(x@.skip(0) =~= x@);
    assert(y@.skip(0) =~= y@);
    while i < x.len() && i < y.len()
        invariant
            i <= x@.len(),
            i <= y@.len(),
            precedes(x@, y@) == precedes(x@.skip(i as int), y@.skip(i as int)),
            x@ == a@,
            y@ == b@,
        decreases x@.len() - i,
    {
        if x[i] != y[i] {
            return x[i] < y[i];
        }
        assert(x@.skip(i as int).drop_first() =~= x@.skip(i + 1));
        assert(y@.skip(i as int).drop_first() =~= y@.skip(i + 1));
        i = i + 1;
    }
    i < y.len()
}

/// Whether a string is among others.
pub fn holds_text(list: &Vec<String>, s: &str) -> (r: bool)
    ensures
        r == texts(list@).contains(s@),
{
    let mut i: usize = 0;
    while i < list.len()
        invariant
            i <= list@.len(),
            forall|j: int| 0 <= j < i ==> (#[trigger] list@[j])@ != s@,
        decreases list@.len() - i,
    {
        if crate::text::same_text(list[i].as_str(), s) {
            assert(texts(list@)[i as int] == s@);
            return true;
        }
        i = i + 1;
    }
    assert forall|j: int| 0 <= j < list@.len() implies texts(list@)[j] != s@ by {
        assert(list@[j]@ != s@);
    }
    false
}

/// Puts a string in its place in an ascending list, unless it is there.
pub fn insert_ascending(list: &mut Vec<String>, s: String)
    requires
        ascending(texts(old(list)@)),
    ensures
        ascending(texts(final(list)@)),
        texts(final(list)@).to_set() == texts(old(list)@).to_set().insert(s@),
{
    let ghost before = texts(list@);
    let mut i: usize = 0;
    while i < list.len() && is_before(list[i].as_str(), s.as_str())
        invariant
            i <= list@.len(),
            before == texts(list@),
            forall|j: int| 0 <= j < i ==> precedes(#[trigger] before[j], s@),
        ensures
            i <= list@.len(),
            before == texts(list@),
            forall|j: int| 0 <= j < i ==> precedes(#[trigger] before[j], s@),
            i < list@.len() ==> !precedes(before[i as int], s@),
        decreases list@.len() - i,
    {
        assert(before[i as int] == list@[i as int]@);
        i = i + 1;
    }
    if i < list.len() {
        assert(before[i as int] == list@[i as int]@);
        if crate::text::same_text(list[i].as_str(), s.as_str()) {
            assert(before.contains(s@));
            assert(before.to_set() =~= before.to_set().insert(s@));
            return;
        }
        proof {
            lemma_precedes_total(before[i as int], s@);
        }
    }
    let ghost text = s@;
    list.insert(i, s);
    proof {
        let now = texts(list@);
        assert(now =~= before.insert(i as int, text));
        assert forall|a: int, b: int| 0 <= a < b < now.len() implies precedes(now[a], now[b]) by {
            if a == i {
                if b > i + 1 {
                    assert(precedes(before[i as int], before[b - 1]));
                    lemma_precedes_trans(text, before[i as int], before[b - 1]);
                }
            } else if b == i {
                assert(now[a] == before[a]);
            }
        }
        assert(now.to_set() =~= before.to_set().insert(text)) by {
            assert forall|x: Seq<char>| now.contains(x) <==> before.contains(x) || x == text by {
                if now.contains(x) {
                    let k = choose|k: int| 0 <= k < now.len() && now[k] == x;
                    if k < i {
                        assert(before[k] == x);
                    } else if k > i {
                        assert(before[k - 1] == x);
                    }
                }
                if before.contains(x) {
                    let k = choose|k: int| 0 <= k < before.len() && before[k] == x;
                    if k < i {
                        assert(now[k] == x);
                    } else {
                        assert(now[k + 1] == x);
                    }
                }
                if x == text {
                    assert(now[i as int] == x);
                }
            }
            assert forall|x: Seq<char>| now.to_set().contains(x)
                <==> before.to_set().insert(text).contains(x) by {
                assert(now.contains(x) <==> before.contains(x) || x == text);
            }
        }
    }
}

} // verus!
