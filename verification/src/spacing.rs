//! White space, words and lines.

use vstd::prelude::*;
use vstd::string::*;

use crate::text::chars;

verus! {

/// Whether Unicode counts a character as white space.
pub open spec fn white_space(c: char) -> bool {
    ||| '\u{9}' <= c <= '\u{d}'
    ||| c == '\u{20}'
    ||| c == '\u{85}'
    ||| c == '\u{a0}'
    ||| c == '\u{1680}'
    ||| '\u{2000}' <= c <= '\u{200a}'
    ||| c == '\u{2028}'
    ||| c == '\u{2029}'
    ||| c == '\u{202f}'
    ||| c == '\u{205f}'
    ||| c == '\u{3000}'
}

/// `char::is_whitespace`: whether the character has the Unicode property `White_Space`.
pub assume_specification[ char::is_whitespace ](c: char) -> (r: bool)
    ensures
        r == white_space(c),
;

/// How many white space characters `s` starts with.
pub open spec fn leading_space(s: Seq<char>) -> nat
    decreases s.len(),
{
    if s.len() > 0 && white_space(s[0]) {
        1 + leading_space(s.drop_first())
    } else {
        0
    }
}

/// How many white space characters `s` ends with.
pub open spec fn trailing_space(s: Seq<char>) -> nat
    decreases s.len(),
{
    if s.len() > 0 && white_space(s.last()) {
        1 + trailing_space(s.drop_last())
    } else {
        0
    }
}

/// How many characters come before the first white space of `s`.
pub open spec fn leading_word(s: Seq<char>) -> nat
    decreases s.len(),
{
    if s.len() > 0 && !white_space(s[0]) {
        1 + leading_word(s.drop_first())
    } else {
        0
    }
}

/// Nothing but white space, or nothing at all.
pub open spec fn is_blank(s: Seq<char>) -> bool {
    forall|i: int| 0 <= i < s.len() ==> white_space(#[trigger] s[i])
}

/// `s` without the white space around it.
pub open spec fn trimmed(s: Seq<char>) -> Seq<char> {
    if is_blank(s) {
        Seq::empty()
    } else {
        s.subrange(leading_space(s) as int, s.len() - trailing_space(s))
    }
}

pub proof fn lemma_leading_space(s: Seq<char>)
    ensures
        leading_space(s) <= s.len(),
        forall|i: int| 0 <= i < leading_space(s) ==> white_space(#[trigger] s[i]),
        leading_space(s) < s.len() ==> !white_space(s[leading_space(s) as int]),
        is_blank(s) <==> leading_space(s) == s.len(),
    decreases s.len(),
{
    if s.len() > 0 && white_space(s[0]) {
        let rest = s.drop_first();
        lemma_leading_space(rest);
        assert forall|i: int| 0 <= i < leading_space(s) implies white_space(#[trigger] s[i]) by {
            if i > 0 {
                assert(white_space(rest[i - 1]));
            }
        }
        if leading_space(s) == s.len() {
            assert(is_blank(s));
        }
    }
}

pub proof fn lemma_trailing_space(s: Seq<char>)
    ensures
        trailing_space(s) <= s.len(),
        forall|i: int| s.len() - trailing_space(s) <= i < s.len() ==> white_space(#[trigger] s[i]),
        trailing_space(s) < s.len() ==> !white_space(s[s.len() - trailing_space(s) - 1]),
        !is_blank(s) ==> leading_space(s) + trailing_space(s) < s.len(),
    decreases s.len(),
{
    lemma_leading_space(s);
    if s.len() > 0 && white_space(s.last()) {
        let rest = s.drop_last();
        lemma_trailing_space(rest);
        assert forall|i: int| s.len() - trailing_space(s) <= i < s.len() implies white_space(
            #[trigger] s[i],
        ) by {
            if i < s.len() - 1 {
                assert(white_space(rest[i]));
            }
        }
    }
    if !is_blank(s) && leading_space(s) + trailing_space(s) >= s.len() {
        assert forall|i: int| 0 <= i < s.len() implies white_space(#[trigger] s[i]) by {}
    }
}

pub proof fn lemma_leading_word(s: Seq<char>)
    ensures
        leading_word(s) <= s.len(),
        forall|i: int| 0 <= i < leading_word(s) ==> !white_space(#[trigger] s[i]),
        leading_word(s) < s.len() ==> white_space(s[leading_word(s) as int]),
    decreases s.len(),
{
    if s.len() > 0 && !white_space(s[0]) {
        let rest = s.drop_first();
        lemma_leading_word(rest);
        assert forall|i: int| 0 <= i < leading_word(s) implies !white_space(#[trigger] s[i]) by {
            if i > 0 {
                assert(!white_space(rest[i - 1]));
            }
        }
    }
}

/// A run of leading white space that another character ends has one length.
pub proof fn lemma_leading_space_is(s: Seq<char>, n: nat)
    requires
        n <= s.len(),
        forall|i: int| 0 <= i < n ==> white_space(#[trigger] s[i]),
        n < s.len() ==> !white_space(s[n as int]),
    ensures
        leading_space(s) == n,
{
    lemma_leading_space(s);
    if n < leading_space(s) {
        assert(white_space(s[n as int]));
    }
}

/// Where trailing white space begins.
pub proof fn lemma_trailing_space_is(s: Seq<char>, n: nat)
    requires
        n <= s.len(),
        forall|i: int| s.len() - n <= i < s.len() ==> white_space(#[trigger] s[i]),
        n < s.len() ==> !white_space(s[s.len() - n - 1]),
    ensures
        trailing_space(s) == n,
{
    lemma_trailing_space(s);
    if n < trailing_space(s) {
        assert(white_space(s[s.len() - n - 1]));
    }
}

/// Where a leading word ends.
pub proof fn lemma_leading_word_is(s: Seq<char>, n: nat)
    requires
        n <= s.len(),
        forall|i: int| 0 <= i < n ==> !white_space(#[trigger] s[i]),
        n < s.len() ==> white_space(s[n as int]),
    ensures
        leading_word(s) == n,
{
    lemma_leading_word(s);
    if n < leading_word(s) {
        assert(!white_space(s[n as int]));
    }
}

/// The first character at or after `from` that is not white space, or the end.
fn skip_space(cs: &Vec<char>, from: usize) -> (k: usize)
    requires
        from <= cs@.len(),
    ensures
        from <= k <= cs@.len(),
        k == from + leading_space(cs@.skip(from as int)),
{
    let mut k: usize = from;
    while k < cs.len() && cs[k].is_whitespace()
        invariant
            from <= k <= cs@.len(),
            forall|i: int| from <= i < k ==> white_space(#[trigger] cs@[i]),
        ensures
            from <= k <= cs@.len(),
            forall|i: int| from <= i < k ==> white_space(#[trigger] cs@[i]),
            k < cs@.len() ==> !white_space(cs@[k as int]),
        decreases cs@.len() - k,
    {
        k = k + 1;
    }
    proof {
        lemma_leading_space_is(cs@.skip(from as int), (k - from) as nat);
    }
    k
}

/// The first white space at or after `from`, or the end.
fn skip_word(cs: &Vec<char>, from: usize) -> (k: usize)
    requires
        from <= cs@.len(),
    ensures
        from <= k <= cs@.len(),
        k == from + leading_word(cs@.skip(from as int)),
{
    let mut k: usize = from;
    while k < cs.len() && !cs[k].is_whitespace()
        invariant
            from <= k <= cs@.len(),
            forall|i: int| from <= i < k ==> !white_space(#[trigger] cs@[i]),
        ensures
            from <= k <= cs@.len(),
            forall|i: int| from <= i < k ==> !white_space(#[trigger] cs@[i]),
            k < cs@.len() ==> white_space(cs@[k as int]),
        decreases cs@.len() - k,
    {
        k = k + 1;
    }
    proof {
        lemma_leading_word_is(cs@.skip(from as int), (k - from) as nat);
    }
    k
}

/// Where the white space at the end begins.
fn last_word_end(cs: &Vec<char>) -> (k: usize)
    ensures
        k <= cs@.len(),
        k == cs@.len() - trailing_space(cs@),
{
    let mut k: usize = cs.len();
    while k > 0 && cs[k - 1].is_whitespace()
        invariant
            k <= cs@.len(),
            forall|i: int| k <= i < cs@.len() ==> white_space(#[trigger] cs@[i]),
        ensures
            k <= cs@.len(),
            forall|i: int| k <= i < cs@.len() ==> white_space(#[trigger] cs@[i]),
            k > 0 ==> !white_space(cs@[k - 1]),
        decreases k,
    {
        k = k - 1;
    }
    proof {
        lemma_trailing_space_is(cs@, (cs@.len() - k) as nat);
    }
    k
}

/// Whether a string holds nothing but white space.
pub fn blank(s: &str) -> (r: bool)
    ensures
        r == is_blank(s@),
{
    let cs: Vec<char> = chars(s);
    proof {
        lemma_leading_space(s@);
        assert(cs@.skip(0) =~= s@);
    }
    skip_space(&cs, 0) == cs.len()
}

/// A string cut into the white space before its text, the text, and the white space after it.
/// Of a blank string all three are empty.
pub fn split_space(s: &str) -> (r: (String, String, String))
    ensures
        r.1@ == trimmed(s@),
        is_blank(s@) ==> r.0@ == Seq::<char>::empty() && r.2@ == Seq::<char>::empty(),
        !is_blank(s@) ==> r.0@ == s@.take(leading_space(s@) as int) && r.2@ == s@.skip(
            s@.len() - trailing_space(s@),
        ),
{
    let cs: Vec<char> = chars(s);
    proof {
        lemma_leading_space(s@);
        lemma_trailing_space(s@);
        assert(cs@.skip(0) =~= s@);
    }
    let lead: usize = skip_space(&cs, 0);
    if lead == cs.len() {
        return (String::new(), String::new(), String::new());
    }
    let end: usize = last_word_end(&cs);
    (
        s.substring_char(0, lead).to_owned(),
        s.substring_char(lead, end).to_owned(),
        s.substring_char(end, cs.len()).to_owned(),
    )
}

/// `parts` with `sep` between each two of them.
pub open spec fn joined(parts: Seq<Seq<char>>, sep: Seq<char>) -> Seq<char>
    decreases parts.len(),
{
    if parts.len() == 0 {
        Seq::empty()
    } else if parts.len() == 1 {
        parts[0]
    } else {
        joined(parts.drop_last(), sep) + sep + parts.last()
    }
}

/// The characters of each string.
pub open spec fn texts(v: Seq<String>) -> Seq<Seq<char>> {
    v.map_values(|s: String| s@)
}

/// The words of `s`: its longest runs of characters that are not white space.
pub open spec fn words(s: Seq<char>) -> Seq<Seq<char>>
    decreases s.len(),
{
    let t = s.skip(leading_space(s) as int);
    let n = leading_word(t) as int;
    if t.len() == 0 {
        Seq::empty()
    } else {
        proof {
            lemma_leading_space(s);
            lemma_leading_word(t);
        }
        seq![t.take(n)] + words(t.skip(n))
    }
}

/// `s` with its words one space apart and no white space around them.
pub open spec fn squeezed(s: Seq<char>) -> Seq<char> {
    joined(words(s), seq![' '])
}

/// How many characters come before the first line feed of `s`.
pub open spec fn line_end(s: Seq<char>) -> nat
    decreases s.len(),
{
    if s.len() > 0 && s[0] != '\n' {
        1 + line_end(s.drop_first())
    } else {
        0
    }
}

/// `s` without the carriage return that ends it, if one does.
pub open spec fn without_return(s: Seq<char>) -> Seq<char> {
    if s.len() > 0 && s.last() == '\r' {
        s.drop_last()
    } else {
        s
    }
}

/// The lines of `s`. A line ends with a line feed, with a carriage return before it or not, or
/// with the text.
pub open spec fn lines(s: Seq<char>) -> Seq<Seq<char>>
    decreases s.len(),
{
    let n = line_end(s) as int;
    if s.len() == 0 {
        Seq::empty()
    } else if n >= s.len() {
        seq![s]
    } else {
        seq![without_return(s.take(n))] + lines(s.skip(n + 1))
    }
}

/// Where a line ends.
pub proof fn lemma_line_end_is(s: Seq<char>, n: nat)
    requires
        n <= s.len(),
        forall|i: int| 0 <= i < n ==> #[trigger] s[i] != '\n',
        n < s.len() ==> s[n as int] == '\n',
    ensures
        line_end(s) == n,
    decreases n,
{
    if n > 0 {
        let rest = s.drop_first();
        assert forall|i: int| 0 <= i < n - 1 implies #[trigger] rest[i] != '\n' by {
            assert(s[i + 1] != '\n');
        }
        lemma_line_end_is(rest, (n - 1) as nat);
    }
}

/// Strings joined, with `sep` between each two of them.
pub fn join(parts: &Vec<String>, sep: &str) -> (r: String)
    ensures
        r@ == joined(texts(parts@), sep@),
{
    let mut r: String = String::new();
    let mut i: usize = 0;
    let ghost all = texts(parts@);
    assert(r@ =~= joined(all.take(0), sep@));
    while i < parts.len()
        invariant
            i <= parts@.len(),
            all == texts(parts@),
            r@ == joined(all.take(i as int), sep@),
        decreases parts@.len() - i,
    {
        if i > 0 {
            r.append(sep);
        }
        r.append(parts[i].as_str());
        assert(all.take(i + 1).drop_last() =~= all.take(i as int));
        assert(all.take(i + 1).last() == parts@[i as int]@);
        assert(i == 0 ==> all.take(i as int) =~= Seq::<Seq<char>>::empty());
        assert(r@ =~= joined(all.take(i + 1), sep@));
        i = i + 1;
    }
    assert(all.take(all.len() as int) =~= all);
    r
}

/// A text with its words one space apart and no white space around them.
pub fn squeeze(s: &str) -> (r: String)
    ensures
        r@ == squeezed(s@),
{
    let cs: Vec<char> = chars(s);
    let mut found: Vec<String> = Vec::new();
    let mut k: usize = 0;
    assert(cs@.skip(0) =~= s@);
    assert(texts(found@) + words(cs@) =~= words(s@));
    while k < cs.len()
        invariant
            k <= cs@.len(),
            cs@ == s@,
            texts(found@) + words(cs@.skip(k as int)) == words(s@),
        decreases cs@.len() - k,
    {
        let ghost rest = cs@.skip(k as int);
        let from: usize = skip_space(&cs, k);
        let ghost t = rest.skip(leading_space(rest) as int);
        proof {
            lemma_leading_space(rest);
            assert(t =~= cs@.skip(from as int));
        }
        if from == cs.len() {
            assert(words(rest) =~= Seq::<Seq<char>>::empty());
            assert(words(cs@.skip(from as int)) =~= Seq::<Seq<char>>::empty()) by {
                assert(cs@.skip(from as int) =~= Seq::<char>::empty());
                lemma_leading_space(Seq::<char>::empty());
            }
            k = from;
        } else {
            let to: usize = skip_word(&cs, from);
            proof {
                lemma_leading_space(rest);
                lemma_leading_word(t);
                assert(t[0] == rest[leading_space(rest) as int]);
                assert(t.take(leading_word(t) as int) =~= s@.subrange(from as int, to as int));
                assert(t.skip(leading_word(t) as int) =~= cs@.skip(to as int));
            }
            let ghost before = texts(found@);
            found.push(s.substring_char(from, to).to_owned());
            proof {
                assert(texts(found@) =~= before.push(s@.subrange(from as int, to as int)));
                assert(before + words(rest) =~= texts(found@) + words(cs@.skip(to as int)));
            }
            k = to;
        }
    }
    proof {
        lemma_leading_space(cs@.skip(k as int));
        assert(words(cs@.skip(k as int)) =~= Seq::<Seq<char>>::empty());
        assert(texts(found@) =~= words(s@));
    }
    let sep: &str = " ";
    proof {
        reveal_strlit(" ");
        assert(sep@ =~= seq![' ']);
    }
    join(&found, sep)
}

/// The lines of a text.
pub fn lines_of(s: &str) -> (r: Vec<String>)
    ensures
        texts(r@) == lines(s@),
{
    let cs: Vec<char> = chars(s);
    let mut r: Vec<String> = Vec::new();
    let mut k: usize = 0;
    assert(cs@.skip(0) =~= s@);
    assert(texts(r@) + lines(cs@) =~= lines(s@));
    while k < cs.len()
        invariant
            k <= cs@.len(),
            cs@ == s@,
            texts(r@) + lines(cs@.skip(k as int)) == lines(s@),
        decreases cs@.len() - k,
    {
        let ghost rest = cs@.skip(k as int);
        let ghost before = texts(r@);
        let mut n: usize = k;
        while n < cs.len() && cs[n] != '\n'
            invariant
                k <= n <= cs@.len(),
                forall|i: int| k <= i < n ==> #[trigger] cs@[i] != '\n',
            ensures
                k <= n <= cs@.len(),
                forall|i: int| k <= i < n ==> #[trigger] cs@[i] != '\n',
                n < cs@.len() ==> cs@[n as int] == '\n',
            decreases cs@.len() - n,
        {
            n = n + 1;
        }
        proof {
            lemma_line_end_is(rest, (n - k) as nat);
        }
        if n == cs.len() {
            r.push(s.substring_char(k, n).to_owned());
            proof {
                assert(rest =~= s@.subrange(k as int, n as int));
                assert(texts(r@) =~= before.push(rest));
                assert(lines(cs@.skip(n as int)) =~= Seq::<Seq<char>>::empty());
                assert(texts(r@) + lines(cs@.skip(n as int)) =~= before + lines(rest));
            }
            k = n;
        } else {
            let end: usize = if n > k && cs[n - 1] == '\r' {
                n - 1
            } else {
                n
            };
            r.push(s.substring_char(k, end).to_owned());
            proof {
                assert(without_return(rest.take(n - k)) =~= s@.subrange(k as int, end as int));
                assert(rest.skip(n - k + 1) =~= cs@.skip(n + 1));
                assert(texts(r@) =~= before.push(s@.subrange(k as int, end as int)));
                assert(texts(r@) + lines(cs@.skip(n + 1)) =~= before + lines(rest));
            }
            k = n + 1;
        }
    }
    assert(lines(cs@.skip(k as int)) =~= Seq::<Seq<char>>::empty());
    assert(texts(r@) =~= lines(s@));
    r
}

} // verus!
