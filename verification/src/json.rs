//! JSON values, and the mathematical trees that contracts speak of.

use vstd::prelude::*;
use vstd::set_lib::*;

use crate::text::same_text;

verus! {

/// A JSON number. A number written as an integer is never equal to one written as a float.
#[derive(Clone, Copy, Debug, PartialEq, Eq, Structural)]
pub enum Number {
    /// An integer from zero up.
    PosInt(u64),
    /// An integer below zero.
    NegInt(i64),
    /// The bits of a finite double.
    Float(u64),
}

/// The bits of the double `-0.0`.
pub const NEGATIVE_ZERO: u64 = 0x8000_0000_0000_0000;

impl Number {
    /// The number with negative zero as zero: two finite doubles are equal exactly when their
    /// bits then agree.
    pub open spec fn value(self) -> Number {
        match self {
            Number::Float(bits) => if bits == NEGATIVE_ZERO {
                Number::Float(0)
            } else {
                self
            },
            _ => self,
        }
    }

    fn canonical(self) -> (r: Number)
        ensures
            r == self.value(),
    {
        match self {
            Number::Float(bits) => if bits == NEGATIVE_ZERO {
                Number::Float(0)
            } else {
                self
            },
            _ => self,
        }
    }
}

/// A JSON value as mathematics: an object is a map, so its keys have no order.
#[verifier::ext_equal]
pub enum Tree {
    Null,
    Bool(bool),
    Number(Number),
    String(Seq<char>),
    Array(Seq<Tree>),
    Object(Map<Seq<char>, Tree>),
}

impl Tree {
    /// What an object holds under `key`.
    pub open spec fn field(self, key: Seq<char>) -> Option<Tree> {
        match self {
            Tree::Object(m) => if m.contains_key(key) {
                Some(m[key])
            } else {
                None
            },
            _ => None,
        }
    }

    /// The characters of a string.
    pub open spec fn text(self) -> Option<Seq<char>> {
        match self {
            Tree::String(s) => Some(s),
            _ => None,
        }
    }

    /// The string that an object holds under `key`.
    pub open spec fn text_field(self, key: Seq<char>) -> Option<Seq<char>> {
        match self.field(key) {
            Some(t) => t.text(),
            None => None,
        }
    }

    /// The array that an object holds under `key`, empty where it holds none.
    pub open spec fn list_field(self, key: Seq<char>) -> Seq<Tree> {
        match self.field(key) {
            Some(Tree::Array(s)) => s,
            _ => Seq::empty(),
        }
    }

    /// A field can be set: of an object, and of null, which is then an empty object.
    pub open spec fn takes_fields(self) -> bool {
        self is Object || self is Null
    }

    /// The value with `value` under `key`.
    pub open spec fn with(self, key: Seq<char>, value: Tree) -> Tree {
        match self {
            Tree::Object(m) => Tree::Object(m.insert(key, value)),
            _ => Tree::Object(Map::empty().insert(key, value)),
        }
    }
}

/// A JSON value.
#[derive(Debug)]
pub enum Json {
    Null,
    Bool(bool),
    Number(Number),
    String(String),
    Array(Vec<Json>),
    Object(Fields),
}

/// The fields of a JSON object. No key occurs twice.
#[derive(Debug)]
pub struct Fields {
    entries: Vec<(String, Json)>,
}

spec fn distinct_keys(s: Seq<(String, Json)>) -> bool {
    forall|i: int, j: int| 0 <= i < j < s.len() ==> s[i].0@ != s[j].0@
}

/// The first `n` entries as a map.
spec fn entry_map(s: Seq<(String, Json)>, n: nat) -> Map<Seq<char>, Tree>
    decreases s, n,
{
    if n == 0 || n > s.len() {
        Map::empty()
    } else {
        entry_map(s, (n - 1) as nat).insert(s[n - 1].0@, s[n - 1].1.view())
    }
}

proof fn lemma_entry_map(s: Seq<(String, Json)>, n: nat)
    requires
        distinct_keys(s),
        n <= s.len(),
    ensures
        forall|i: int|
            0 <= i < n ==> entry_map(s, n).contains_key((#[trigger] s[i]).0@) && entry_map(
                s,
                n,
            )[s[i].0@] == s[i].1@,
        forall|k: Seq<char>| #[trigger]
            entry_map(s, n).contains_key(k) ==> exists|i: int|
                0 <= i < n && (#[trigger] s[i]).0@ == k,
        entry_map(s, n).dom().finite(),
        entry_map(s, n).dom().len() == n,
    decreases n,
{
    if n > 0 {
        let before = entry_map(s, (n - 1) as nat);
        lemma_entry_map(s, (n - 1) as nat);
        assert(!before.contains_key(s[n - 1].0@));
        assert(entry_map(s, n).dom() =~= before.dom().insert(s[n - 1].0@));
        assert forall|k: Seq<char>| #[trigger] entry_map(s, n).contains_key(k) implies exists|i: int|
            0 <= i < n && (#[trigger] s[i]).0@ == k by {
            if k == s[n - 1].0@ {
                assert(s[n - 1].0@ == k);
            } else {
                assert(before.contains_key(k));
            }
        }
    }
}

/// The map depends on what the entries hold alone.
proof fn lemma_entry_map_same(a: Seq<(String, Json)>, b: Seq<(String, Json)>, n: nat)
    requires
        n <= a.len(),
        n <= b.len(),
        forall|i: int|
            0 <= i < n ==> (#[trigger] a[i]).0@ == (#[trigger] b[i]).0@ && a[i].1@ == b[i].1@,
    ensures
        entry_map(a, n) == entry_map(b, n),
    decreases n,
{
    if n > 0 {
        lemma_entry_map_same(a, b, (n - 1) as nat);
        assert(a[n - 1].0@ == b[n - 1].0@);
    }
}

impl Fields {
    #[verifier::type_invariant]
    spec fn well_formed(self) -> bool {
        distinct_keys(self.entries@)
    }

    /// The fields as a map.
    pub closed spec fn view(&self) -> Map<Seq<char>, Tree>
        decreases self,
    {
        entry_map(self.entries@, self.entries@.len())
    }

    /// No fields.
    pub fn new() -> (r: Fields)
        ensures
            r@ == Map::<Seq<char>, Tree>::empty(),
    {
        Fields { entries: Vec::new() }
    }

    /// The number of fields. Every key has a number below it.
    pub fn len(&self) -> (n: usize)
        ensures
            self@.dom().finite(),
            n == self@.dom().len(),
            forall|k: Seq<char>| #[trigger]
                self@.contains_key(k) ==> exists|i: int| 0 <= i < n && #[trigger] self.key(i) == k,
    {
        proof {
            use_type_invariant(self);
            lemma_entry_map(self.entries@, self.entries@.len());
            assert forall|k: Seq<char>| #[trigger] self@.contains_key(k) implies exists|i: int|
                0 <= i < self.entries@.len() && #[trigger] self.key(i) == k by {
                let i = choose|i: int|
                    0 <= i < self.entries@.len() && (#[trigger] self.entries@[i]).0@ == k;
                assert(self.key(i) == k);
            }
        }
        self.entries.len()
    }

    /// A field by its number. The numbers of the fields go from zero to their count.
    pub fn entry(&self, i: usize) -> (r: (&String, &Json))
        requires
            i < self@.dom().len(),
        ensures
            self@.contains_key(r.0@),
            self@[r.0@] == r.1@,
            r.0@ == self.key(i as int),
            decreases_to!(self => r.1),
    {
        proof {
            use_type_invariant(self);
            lemma_entry_map(self.entries@, self.entries@.len());
            assert(self.entries@[i as int].0@ == self.key(i as int));
        }
        let entry: &(String, Json) = &self.entries[i];
        (&entry.0, &entry.1)
    }

    /// The key of the field with number `i`.
    pub closed spec fn key(&self, i: int) -> Seq<char> {
        self.entries@[i].0@
    }
}

impl Json {
    /// The value as mathematics.
    pub open spec fn view(&self) -> Tree
        decreases self,
    {
        match self {
            Json::Null => Tree::Null,
            Json::Bool(b) => Tree::Bool(*b),
            Json::Number(n) => Tree::Number(n.value()),
            Json::String(s) => Tree::String(s@),
            Json::Array(v) => Tree::Array(
                Seq::new(
                    v@.len(),
                    |i: int|
                        if 0 <= i < v@.len() {
                            v@[i].view()
                        } else {
                            Tree::Null
                        },
                ),
            ),
            Json::Object(f) => Tree::Object(f@),
        }
    }
}

/// The values as mathematics.
pub open spec fn trees(s: Seq<Json>) -> Seq<Tree> {
    Seq::new(s.len(), |i: int| s[i]@)
}

/// An array's items are its values, and an array is larger than each of them.
pub proof fn lemma_array(v: Vec<Json>)
    ensures
        Json::Array(v)@ == Tree::Array(trees(v@)),
        forall|i: int| 0 <= i < v@.len() ==> decreases_to!(Json::Array(v) => #[trigger] v@[i]),
{
    assert(Json::Array(v)@->Array_0 =~= trees(v@));
    assert forall|i: int| 0 <= i < v@.len() implies decreases_to!(
        Json::Array(v) => #[trigger] v@[i]
    ) by {
        let whole = Json::Array(v);
        assert(decreases_to!(whole => whole->Array_0));
        assert(decreases_to!(v => v@));
        assert(decreases_to!(v@ => v@[i]));
    }
}

impl Fields {
    /// Where `key` stands among the entries.
    fn position(&self, key: &str) -> (r: Option<usize>)
        ensures
            r matches Some(i) ==> i < self.entries@.len() && self.entries@[i as int].0@ == key@,
            r is None ==> forall|i: int|
                0 <= i < self.entries@.len() ==> (#[trigger] self.entries@[i]).0@ != key@,
    {
        let mut i: usize = 0;
        while i < self.entries.len()
            invariant
                i <= self.entries@.len(),
                forall|j: int| 0 <= j < i ==> (#[trigger] self.entries@[j]).0@ != key@,
            decreases self.entries@.len() - i,
        {
            if same_text(self.entries[i].0.as_str(), key) {
                return Some(i);
            }
            i = i + 1;
        }
        None
    }

    /// The value under `key`.
    pub fn get(&self, key: &str) -> (r: Option<&Json>)
        ensures
            r is Some <==> self@.contains_key(key@),
            r matches Some(v) ==> v@ == self@[key@] && decreases_to!(self => v),
    {
        proof {
            use_type_invariant(self);
            lemma_entry_map(self.entries@, self.entries@.len());
        }
        match self.position(key) {
            Some(i) => Some(&self.entries[i].1),
            None => None,
        }
    }

    /// The fields with `value` under `key`.
    pub fn with(self, key: &str, value: Json) -> (r: Fields)
        ensures
            r@ == self@.insert(key@, value@),
    {
        proof {
            use_type_invariant(&self);
        }
        let found: Option<usize> = self.position(key);
        let ghost before = self.entries@;
        let ghost n = before.len();
        let mut entries: Vec<(String, Json)> = self.entries;
        match found {
            Some(i) => {
                entries.set(i, (key.to_owned(), value));
                proof {
                    assert(distinct_keys(entries@));
                    lemma_entry_map(before, n);
                    lemma_entry_map(entries@, n);
                    let (a, b) = (entry_map(before, n), entry_map(entries@, n));
                    assert(entries@[i as int].0@ == key@ && before[i as int].0@ == key@);
                    assert forall|k: Seq<char>| #[trigger] b.contains_key(k) <==> a.contains_key(k) by {
                        if b.contains_key(k) {
                            let j = choose|j: int| 0 <= j < n && (#[trigger] entries@[j]).0@ == k;
                            assert(before[j].0@ == k);
                        }
                        if a.contains_key(k) {
                            let j = choose|j: int| 0 <= j < n && (#[trigger] before[j]).0@ == k;
                            assert(entries@[j].0@ == k);
                        }
                    }
                    assert forall|k: Seq<char>| b.contains_key(k) implies #[trigger] b[k]
                        == a.insert(key@, value@)[k] by {
                        let j = choose|j: int| 0 <= j < n && (#[trigger] entries@[j]).0@ == k;
                        assert(before[j].0@ == k);
                    }
                    assert(b =~= a.insert(key@, value@));
                }
            },
            None => {
                entries.push((key.to_owned(), value));
                proof {
                    assert(distinct_keys(entries@));
                    lemma_entry_map_same(before, entries@, n);
                }
            },
        }
        Fields { entries }
    }
}

impl Json {
    /// The value under `key`, of an object that has one.
    pub fn get(&self, key: &str) -> (r: Option<&Json>)
        ensures
            r is Some <==> self@.field(key@) is Some,
            r matches Some(v) ==> self@.field(key@) == Some(v@) && decreases_to!(self => v),
    {
        match self {
            Json::Object(f) => f.get(key),
            _ => None,
        }
    }

    /// The characters of a string.
    pub fn as_str(&self) -> (r: Option<&str>)
        ensures
            r is Some <==> self@.text() is Some,
            r matches Some(s) ==> self@.text() == Some(s@),
    {
        match self {
            Json::String(s) => Some(s.as_str()),
            _ => None,
        }
    }

    /// The value with `value` under `key`. Null is taken for an empty object.
    pub fn with(self, key: &str, value: Json) -> (r: Json)
        requires
            self@.takes_fields(),
        ensures
            r@ == self@.with(key@, value@),
    {
        match self {
            Json::Object(f) => Json::Object(f.with(key, value)),
            _ => Json::Object(Fields::new().with(key, value)),
        }
    }

    /// The string under `key`.
    pub fn text_at(&self, key: &str) -> (r: Option<&str>)
        ensures
            r is Some <==> self@.text_field(key@) is Some,
            r matches Some(s) ==> self@.text_field(key@) == Some(s@),
    {
        match self.get(key) {
            Some(v) => v.as_str(),
            None => None,
        }
    }
}

/// No values.
fn no_values() -> (r: &'static [Json])
    ensures
        r@.len() == 0,
{
    &[]
}

impl Json {
    /// The array under `key`, empty where there is none.
    pub fn list_at(&self, key: &str) -> (r: &[Json])
        ensures
            trees(r@) == self@.list_field(key@),
            forall|i: int| 0 <= i < r@.len() ==> decreases_to!(self => #[trigger] r@[i]),
    {
        match self.get(key) {
            Some(Json::Array(v)) => {
                proof {
                    lemma_array(*v);
                }
                v.as_slice()
            },
            _ => {
                let r: &[Json] = no_values();
                assert(trees(r@) =~= Seq::<Tree>::empty());
                r
            },
        }
    }
}

impl Clone for Fields {
    fn clone(&self) -> (r: Fields)
        ensures
            r@ == self@,
        decreases self,
    {
        proof {
            use_type_invariant(self);
        }
        let mut entries: Vec<(String, Json)> = Vec::new();
        let mut i: usize = 0;
        while i < self.entries.len()
            invariant
                i <= self.entries@.len(),
                entries@.len() == i,
                distinct_keys(self.entries@),
                forall|j: int|
                    0 <= j < i ==> (#[trigger] entries@[j]).0@ == self.entries@[j].0@
                        && entries@[j].1@ == self.entries@[j].1@,
            decreases self.entries@.len() - i,
        {
            let entry: &(String, Json) = &self.entries[i];
            entries.push((entry.0.clone(), entry.1.clone()));
            i = i + 1;
        }
        proof {
            lemma_entry_map_same(entries@, self.entries@, i as nat);
        }
        Fields { entries }
    }
}

impl Clone for Json {
    fn clone(&self) -> (r: Json)
        ensures
            r@ == self@,
        decreases self,
    {
        match self {
            Json::Null => Json::Null,
            Json::Bool(b) => Json::Bool(*b),
            Json::Number(n) => Json::Number(*n),
            Json::String(s) => Json::String(s.clone()),
            Json::Array(v) => {
                let mut items: Vec<Json> = Vec::new();
                let mut i: usize = 0;
                while i < v.len()
                    invariant
                        i <= v@.len(),
                        items@.len() == i,
                        *self == Json::Array(*v),
                        forall|j: int| 0 <= j < i ==> (#[trigger] items@[j])@ == v@[j]@,
                    decreases v@.len() - i,
                {
                    let item: &Json = &v[i];
                    proof {
                        lemma_array(*v);
                    }
                    items.push(item.clone());
                    i = i + 1;
                }
                proof {
                    lemma_array(*v);
                    lemma_array(items);
                    assert(trees(items@) =~= trees(v@));
                }
                Json::Array(items)
            },
            Json::Object(f) => Json::Object(f.clone()),
        }
    }
}

impl Fields {
    /// Whether two objects hold the same fields.
    fn same(&self, other: &Fields) -> (r: bool)
        ensures
            r == (self@ == other@),
        decreases self,
    {
        let n: usize = self.len();
        if n != other.len() {
            return false;
        }
        let mut i: usize = 0;
        while i < n
            invariant
                i <= n,
                n == self@.dom().len(),
                forall|j: int|
                    0 <= j < i ==> other@.contains_key(#[trigger] self.key(j))
                        && self@.contains_key(self.key(j)) && other@[self.key(j)]
                        == self@[self.key(j)],
            decreases n - i,
        {
            let (key, value): (&String, &Json) = self.entry(i);
            match other.get(key.as_str()) {
                Some(found) => {
                    if !value.same(found) {
                        return false;
                    }
                },
                None => {
                    return false;
                },
            }
            i = i + 1;
        }
        proof {
            assert(self@.dom().subset_of(other@.dom())) by {
                assert forall|k: Seq<char>| self@.dom().contains(k) implies other@.dom().contains(
                    k,
                ) by {
                    assert(self@.contains_key(k));
                }
            }
            lemma_subset_equality(self@.dom(), other@.dom());
            assert(self@ =~= other@);
        }
        true
    }
}

impl Json {
    /// Whether two values are equal. The order of an object's fields does not matter.
    pub fn same(&self, other: &Json) -> (r: bool)
        ensures
            r == (self@ == other@),
        decreases self,
    {
        match (self, other) {
            (Json::Null, Json::Null) => true,
            (Json::Bool(a), Json::Bool(b)) => *a == *b,
            (Json::Number(a), Json::Number(b)) => a.canonical() == b.canonical(),
            (Json::String(a), Json::String(b)) => same_text(a.as_str(), b.as_str()),
            (Json::Array(a), Json::Array(b)) => {
                proof {
                    lemma_array(*a);
                    lemma_array(*b);
                }
                if a.len() != b.len() {
                    assert(trees(a@).len() != trees(b@).len());
                    return false;
                }
                let mut i: usize = 0;
                while i < a.len()
                    invariant
                        i <= a@.len(),
                        a@.len() == b@.len(),
                        *self == Json::Array(*a),
                        self@ == Tree::Array(trees(a@)),
                        other@ == Tree::Array(trees(b@)),
                        forall|j: int| 0 <= j < i ==> (#[trigger] a@[j])@ == b@[j]@,
                    decreases a@.len() - i,
                {
                    if !a[i].same(&b[i]) {
                        assert(trees(a@)[i as int] != trees(b@)[i as int]);
                        return false;
                    }
                    i = i + 1;
                }
                assert(trees(a@) =~= trees(b@));
                true
            },
            (Json::Object(a), Json::Object(b)) => a.same(b),
            _ => false,
        }
    }
}

impl PartialEq for Json {
    fn eq(&self, other: &Json) -> (r: bool) {
        self.same(other)
    }
}

impl vstd::std_specs::cmp::PartialEqSpecImpl for Json {
    open spec fn obeys_eq_spec() -> bool {
        true
    }

    open spec fn eq_spec(&self, other: &Json) -> bool {
        self@ == other@
    }
}

} // verus!
