//! UTF-8 widths and offsets, and the occurrences of one text in another.
//!
//! Contracts speak of a string as its sequence of characters. A byte offset into a string is
//! the UTF-8 width of the characters before it.

use vstd::prelude::*;
use vstd::string::*;
use vstd::utf8::*;

verus! {

/// How many bytes `s` takes in UTF-8.
pub open spec fn width(s: Seq<char>) -> nat {
    encode_utf8(s).len()
}

/// `b` is the byte offset of a character of `s`, or of its end.
pub open spec fn is_offset(s: Seq<char>, b: int) -> bool {
    exists|k: int| 0 <= k <= s.len() && #[trigger] width(s.take(k)) == b
}

/// How many characters of `s` come before byte offset `b`.
pub open spec fn chars_before(s: Seq<char>, b: int) -> int {
    choose|k: int| 0 <= k <= s.len() && #[trigger] width(s.take(k)) == b
}

/// The part of `s` between two byte offsets.
pub open spec fn slice(s: Seq<char>, lo: int, hi: int) -> Seq<char> {
    s.subrange(chars_before(s, lo), chars_before(s, hi))
}

/// `n` stands in `s`, starting at character `k`.
pub open spec fn occurs_at(s: Seq<char>, n: Seq<char>, k: int) -> bool {
    0 <= k && k + n.len() <= s.len() && s.subrange(k, k + n.len()) == n
}

/// The byte offsets at which `n` starts in `s`, among its first `k` characters.
pub open spec fn offsets_before(s: Seq<char>, n: Seq<char>, k: nat) -> Seq<int>
    decreases k,
{
    if k == 0 {
        Seq::empty()
    } else {
        let before = offsets_before(s, n, (k - 1) as nat);
        if occurs_at(s, n, k - 1) {
            before.push(width(s.take(k - 1)) as int)
        } else {
            before
        }
    }
}

/// The byte offsets at which `n` starts in `s`, overlapping occurrences included.
pub open spec fn offsets(s: Seq<char>, n: Seq<char>) -> Seq<int> {
    offsets_before(s, n, s.len())
}

pub proof fn lemma_width_add(a: Seq<char>, b: Seq<char>)
    ensures
        encode_utf8(a + b) == encode_utf8(a) + encode_utf8(b),
        width(a + b) == width(a) + width(b),
    decreases a.len(),
{
    if a.len() == 0 {
        assert(a + b =~= b);
        assert(encode_utf8(a) + encode_utf8(b) =~= encode_utf8(b));
    } else {
        lemma_width_add(a.drop_first(), b);
        assert((a + b).drop_first() =~= a.drop_first() + b);
        assert(encode_utf8(a + b) =~= encode_utf8(a) + encode_utf8(b));
    }
}

/// A character takes one to four bytes.
pub proof fn lemma_width_one(c: char)
    ensures
        1 <= width(seq![c]) <= 4,
        width(seq![c]) == encode_scalar(c as u32).len(),
{
    reveal_with_fuel(encode_utf8, 2);
    assert(seq![c].drop_first() =~= Seq::<char>::empty());
}

/// Offsets grow strictly with the number of characters before them.
pub proof fn lemma_width_take(s: Seq<char>, i: int, j: int)
    requires
        0 <= i <= j <= s.len(),
    ensures
        width(s.take(j)) == width(s.take(i)) + width(s.subrange(i, j)),
        i < j ==> width(s.take(i)) < width(s.take(j)),
        i + (width(s.take(j)) - width(s.take(i))) >= j,
    decreases j - i,
{
    assert(s.take(j) =~= s.take(i) + s.subrange(i, j));
    lemma_width_add(s.take(i), s.subrange(i, j));
    if i < j {
        lemma_width_take(s, i, j - 1);
        assert(s.take(j) =~= s.take(j - 1) + seq![s[j - 1]]);
        lemma_width_add(s.take(j - 1), seq![s[j - 1]]);
        lemma_width_one(s[j - 1]);
    }
}

/// A byte offset has one number of characters before it.
pub proof fn lemma_chars_before(s: Seq<char>, k: int)
    requires
        0 <= k <= s.len(),
    ensures
        is_offset(s, width(s.take(k)) as int),
        chars_before(s, width(s.take(k)) as int) == k,
{
    let b = width(s.take(k)) as int;
    let c = chars_before(s, b);
    assert(0 <= k <= s.len() && width(s.take(k)) == b);
    assert(0 <= c <= s.len() && width(s.take(c)) == b);
    if c < k {
        lemma_width_take(s, c, k);
    } else if k < c {
        lemma_width_take(s, k, c);
    }
}

/// The occurrences that `offsets_before` lists are those that start before character `k`, in
/// order and each once.
pub proof fn lemma_offsets_before(s: Seq<char>, n: Seq<char>, k: nat)
    requires
        k <= s.len(),
    ensures
        forall|i: int, j: int|
            0 <= i < j < offsets_before(s, n, k).len() ==> offsets_before(s, n, k)[i]
                < offsets_before(s, n, k)[j],
        forall|b: int| #[trigger]
            offsets_before(s, n, k).contains(b) <==> exists|c: int|
                0 <= c < k && #[trigger] occurs_at(s, n, c) && width(s.take(c)) == b,
    decreases k,
{
    if k > 0 {
        let before = offsets_before(s, n, (k - 1) as nat);
        let now = offsets_before(s, n, k);
        lemma_offsets_before(s, n, (k - 1) as nat);
        let last = width(s.take(k - 1)) as int;
        assert forall|i: int| 0 <= i < before.len() implies before[i] < last by {
            assert(before.contains(before[i]));
            let c = choose|c: int|
                0 <= c < k - 1 && #[trigger] occurs_at(s, n, c) && width(s.take(c)) == before[i];
            lemma_width_take(s, c, k - 1);
        }
        assert forall|b: int| #[trigger] now.contains(b) <==> exists|c: int|
            0 <= c < k && #[trigger] occurs_at(s, n, c) && width(s.take(c)) == b by {
            if now.contains(b) {
                let i = choose|i: int| 0 <= i < now.len() && now[i] == b;
                if i < before.len() {
                    assert(before[i] == b);
                    assert(before.contains(b));
                } else {
                    assert(occurs_at(s, n, k - 1) && width(s.take(k - 1)) == b);
                }
            }
            if exists|c: int| 0 <= c < k && #[trigger] occurs_at(s, n, c) && width(s.take(c)) == b {
                let c = choose|c: int|
                    0 <= c < k && #[trigger] occurs_at(s, n, c) && width(s.take(c)) == b;
                if c == k - 1 {
                    assert(now[before.len() as int] == b);
                } else {
                    assert(before.contains(b));
                    let i = choose|i: int| 0 <= i < before.len() && before[i] == b;
                    assert(now[i] == b);
                }
            }
        }
    }
}

/// The characters of a string.
pub fn chars(s: &str) -> (v: Vec<char>)
    ensures
        v@ == s@,
{
    let mut v: Vec<char> = Vec::new();
    for c in it: s.chars()
        invariant
            it.seq() == s@,
            v@ == s@.take(it.index()),
    {
        v.push(c);
    }
    assert(s@.take(s@.len() as int) =~= s@);
    v
}

/// The length of a string in bytes.
pub fn byte_len(s: &str) -> (n: usize)
    ensures
        n == width(s@),
{
    s.as_bytes().len()
}

/// How many bytes a character takes in UTF-8.
pub fn char_width(c: char) -> (n: usize)
    ensures
        n == width(seq![c]),
        1 <= n <= 4,
{
    proof {
        lemma_width_one(c);
    }
    let code: u32 = c as u32;
    if code <= 0x7f {
        1
    } else if code <= 0x7ff {
        2
    } else if code <= 0xffff {
        3
    } else {
        4
    }
}

/// Whether two strings are equal.
pub fn same_text(a: &str, b: &str) -> (r: bool)
    ensures
        r == (a@ == b@),
{
    let (x, y): (&[u8], &[u8]) = (a.as_bytes(), b.as_bytes());
    if x.len() != y.len() {
        return false;
    }
    let mut i: usize = 0;
    while i < x.len()
        invariant
            i <= x@.len(),
            x@.len() == y@.len(),
            x@ == encode_utf8(a@),
            y@ == encode_utf8(b@),
            forall|j: int| 0 <= j < i ==> x@[j] == y@[j],
        decreases x@.len() - i,
    {
        if x[i] != y[i] {
            return false;
        }
        i = i + 1;
    }
    assert(x@ =~= y@);
    proof {
        encode_utf8_decode_utf8(a@);
        encode_utf8_decode_utf8(b@);
    }
    true
}

/// Whether `n` stands in `s`, starting at character `k`.
fn starts_at(s: &Vec<char>, n: &Vec<char>, k: usize) -> (r: bool)
    requires
        k <= s@.len(),
    ensures
        r == occurs_at(s@, n@, k as int),
{
    let room: usize = s.len() - k;
    if n.len() > room {
        return false;
    }
    let mut i: usize = 0;
    while i < n.len()
        invariant
            i <= n@.len(),
            n@.len() <= room,
            k + room == s@.len(),
            k + room <= usize::MAX,
            forall|j: int| 0 <= j < i ==> s@[k + j] == n@[j],
        decreases n@.len() - i,
    {
        if s[k + i] != n[i] {
            assert(s@.subrange(k as int, k + n@.len())[i as int] == s@[k + i]);
            return false;
        }
        i = i + 1;
    }
    assert(s@.subrange(k as int, k + n@.len()) =~= n@);
    true
}

/// Start offsets, in bytes, of every occurrence of `needle`, overlapping ones included.
pub fn find_all(haystack: &str, needle: &str) -> (r: Vec<usize>)
    ensures
        r@.map_values(|at: usize| at as int) == offsets(haystack@, needle@),
        forall|i: int, j: int| 0 <= i < j < r@.len() ==> r@[i] < r@[j],
        forall|at: usize| #[trigger]
            r@.contains(at) <==> exists|k: int|
                0 <= k < haystack@.len() && #[trigger] occurs_at(haystack@, needle@, k) && width(
                    haystack@.take(k),
                ) == at,
{
    let s: Vec<char> = chars(haystack);
    let n: Vec<char> = chars(needle);
    let total: usize = byte_len(haystack);
    let mut r: Vec<usize> = Vec::new();
    let mut k: usize = 0;
    let mut at: usize = 0;
    assert(s@.take(0) =~= Seq::<char>::empty());
    assert(r@.map_values(|at: usize| at as int) =~= offsets_before(s@, n@, 0));
    while k < s.len()
        invariant
            k <= s@.len(),
            s@ == haystack@,
            n@ == needle@,
            total == width(s@),
            at == width(s@.take(k as int)),
            r@.map_values(|at: usize| at as int) == offsets_before(s@, n@, k as nat),
        decreases s@.len() - k,
    {
        let ghost before = r@;
        if starts_at(&s, &n, k) {
            r.push(at);
        }
        assert(r@.map_values(|at: usize| at as int) =~= offsets_before(s@, n@, (k + 1) as nat));
        let w: usize = char_width(s[k]);
        proof {
            lemma_width_take(s@, k as int, k + 1);
            lemma_width_take(s@, k + 1, s@.len() as int);
            assert(s@.subrange(k as int, k + 1) =~= seq![s@[k as int]]);
            assert(s@.take(s@.len() as int) =~= s@);
        }
        at = at + w;
        k = k + 1;
    }
    proof {
        let found = offsets(haystack@, needle@);
        lemma_offsets_before(s@, n@, s@.len());
        assert(r@.map_values(|at: usize| at as int) == found);
        assert forall|i: int, j: int| 0 <= i < j < r@.len() implies r@[i] < r@[j] by {
            assert(found[i] == r@[i] && found[j] == r@[j]);
        }
        assert forall|at: usize| #[trigger] r@.contains(at) <==> found.contains(at as int) by {
            if r@.contains(at) {
                let i = choose|i: int| 0 <= i < r@.len() && r@[i] == at;
                assert(found[i] == at);
            }
            if found.contains(at as int) {
                let i = choose|i: int| 0 <= i < found.len() && found[i] == at as int;
                assert(r@[i] == at);
            }
        }
    }
    r
}

/// How many characters come before byte offset `b`, if that is the offset of a character or of
/// the end.
pub fn char_index(s: &str, b: usize) -> (r: Option<usize>)
    ensures
        r is Some <==> is_offset(s@, b as int),
        r matches Some(k) ==> k <= s@.len() && k == chars_before(s@, b as int) && width(
            s@.take(k as int),
        ) == b,
{
    let cs: Vec<char> = chars(s);
    let total: usize = byte_len(s);
    let mut k: usize = 0;
    let mut at: usize = 0;
    assert(s@.take(0) =~= Seq::<char>::empty());
    while k < cs.len() && at < b
        invariant
            k <= cs@.len(),
            cs@ == s@,
            total == width(s@),
            at == width(s@.take(k as int)),
            forall|j: int| 0 <= j < k ==> #[trigger] width(s@.take(j)) < b,
        decreases cs@.len() - k,
    {
        let w: usize = char_width(cs[k]);
        proof {
            lemma_width_take(s@, k as int, k + 1);
            lemma_width_take(s@, k + 1, s@.len() as int);
            assert(s@.subrange(k as int, k + 1) =~= seq![s@[k as int]]);
            assert(s@.take(s@.len() as int) =~= s@);
        }
        at = at + w;
        k = k + 1;
    }
    proof {
        lemma_chars_before(s@, k as int);
        assert forall|j: int| k < j <= s@.len() implies #[trigger] width(s@.take(j)) > at by {
            lemma_width_take(s@, k as int, j);
        }
    }
    if at == b {
        Some(k)
    } else {
        None
    }
}

/// The part of a string between two byte offsets.
pub fn slice_text(s: &str, lo: usize, hi: usize) -> (r: String)
    requires
        is_offset(s@, lo as int),
        is_offset(s@, hi as int),
        lo <= hi,
    ensures
        r@ == slice(s@, lo as int, hi as int),
{
    let i: usize = char_index(s, lo).unwrap();
    let j: usize = char_index(s, hi).unwrap();
    proof {
        if j < i {
            lemma_width_take(s@, j as int, i as int);
        }
    }
    s.substring_char(i, j).to_owned()
}

} // verus!
