//! Texts: where one occurs in another, how they are cut, joined and put in order.

use vstd::prelude::*;
use vstd::utf8::*;

use crate::node::pointer;
use crate::order::{lemma_precedes_total, precedes};
use crate::rows::row_lines;
use crate::spacing::{
    is_blank, joined, leading_space, leading_word, lemma_leading_space, lemma_leading_space_is,
    lemma_leading_word, lemma_leading_word_is, lemma_line_end_is, lines, squeezed, white_space,
    words,
};
use crate::text::{
    lemma_chars_before, lemma_offsets_before, lemma_width_add, occurs_at, offsets, slice, width,
};
use crate::wording::{decimal, digit, preview_text, quoted_text};

verus! {

/// The width of a text is that of its UTF-8 form.
pub proof fn law_width_is_utf8(s: Seq<char>, t: Seq<char>)
    ensures
        width(s) == encode_utf8(s).len(),
        width(s + t) == width(s) + width(t),
{
    lemma_width_add(s, t);
}

/// A text occurs at an offset exactly where the other one can be split there: into what is as
/// wide as the offset, the text, and the rest. Overlapping occurrences count, each once.
pub proof fn law_occurrences_are_splits(s: Seq<char>, n: Seq<char>, b: int)
    requires
        n.len() > 0,
    ensures
        offsets(s, n).contains(b) <==> exists|x: Seq<char>, y: Seq<char>|
            s == #[trigger] (x + n + y) && width(x) == b,
        forall|i: int, j: int|
            0 <= i < j < offsets(s, n).len() ==> offsets(s, n)[i] < offsets(s, n)[j],
{
    lemma_offsets_before(s, n, s.len());
    if offsets(s, n).contains(b) {
        let c = choose|c: int|
            0 <= c < s.len() && #[trigger] occurs_at(s, n, c) && width(s.take(c)) == b;
        let (x, y) = (s.take(c), s.skip(c + n.len()));
        assert(s =~= x + n + y) by {
            assert(s.subrange(c, c + n.len()) == n);
        }
        assert(s == x + n + y && width(x) == b);
    }
    if exists|x: Seq<char>, y: Seq<char>| s == #[trigger] (x + n + y) && width(x) == b {
        let (x, y) = choose|x: Seq<char>, y: Seq<char>|
            s == #[trigger] (x + n + y) && width(x) == b;
        let c = x.len() as int;
        assert(s.take(c) =~= x);
        assert(s.subrange(c, c + n.len()) =~= n);
        assert(occurs_at(s, n, c));
    }
}

/// The part between two offsets is what stands between them.
pub proof fn law_a_slice_is_what_stands_between(a: Seq<char>, b: Seq<char>, c: Seq<char>)
    ensures
        slice(a + b + c, width(a) as int, width(a + b) as int) == b,
{
    let s = a + b + c;
    let (i, j) = (a.len() as int, (a.len() + b.len()) as int);
    assert(s.take(i) =~= a);
    assert(s.take(j) =~= a + b);
    lemma_chars_before(s, i);
    lemma_chars_before(s, j);
    assert(s.subrange(i, j) =~= b);
}

/// Nothing but white space, or something else.
pub proof fn law_blank_is_all_white_space(s: Seq<char>, c: char)
    ensures
        is_blank(Seq::empty()),
        is_blank(s.push(c)) <==> is_blank(s) && white_space(c),
{
    if is_blank(s.push(c)) {
        assert(s.push(c)[s.len() as int] == c);
        assert forall|i: int| 0 <= i < s.len() implies white_space(#[trigger] s[i]) by {
            assert(s.push(c)[i] == s[i]);
        }
    }
}

/// Joined texts have the separator between each two of them, and nowhere else.
pub proof fn law_texts_are_joined_in_order(parts: Seq<Seq<char>>, x: Seq<char>, sep: Seq<char>)
    ensures
        joined(Seq::empty(), sep) == Seq::<char>::empty(),
        joined(seq![x], sep) == x,
        parts.len() > 0 ==> joined(parts.push(x), sep) == joined(parts, sep) + sep + x,
{
    assert(parts.push(x).drop_last() =~= parts);
}

proof fn lemma_joined_add(a: Seq<Seq<char>>, b: Seq<Seq<char>>, sep: Seq<char>)
    requires
        a.len() > 0,
        b.len() > 0,
    ensures
        joined(a + b, sep) == joined(a, sep) + sep + joined(b, sep),
    decreases b.len(),
{
    assert((a + b).drop_last() =~= a + b.drop_last());
    if b.len() == 1 {
        assert(a + b.drop_last() =~= a);
    } else {
        lemma_joined_add(a, b.drop_last(), sep);
        assert(joined(a + b, sep) =~= joined(a, sep) + sep + joined(b, sep));
    }
}

/// Words are not empty.
proof fn lemma_words(s: Seq<char>)
    ensures
        forall|i: int| 0 <= i < words(s).len() ==> (#[trigger] words(s)[i]).len() > 0,
    decreases s.len(),
{
    lemma_leading_space(s);
    let t = s.skip(leading_space(s) as int);
    lemma_leading_word(t);
    let n = leading_word(t) as int;
    if t.len() > 0 {
        let rest = words(t.skip(n));
        lemma_words(t.skip(n));
        assert(t[0] == s[leading_space(s) as int]);
        assert(n > 0);
        assert(words(s) =~= seq![t.take(n)] + rest);
        assert forall|i: int| 0 <= i < words(s).len() implies (#[trigger] words(s)[i]).len() > 0 by {
            if i > 0 {
                assert(words(s)[i] == rest[i - 1]);
            }
        }
    }
}

proof fn lemma_joined_empty(parts: Seq<Seq<char>>, sep: Seq<char>)
    requires
        forall|i: int| 0 <= i < parts.len() ==> (#[trigger] parts[i]).len() > 0,
    ensures
        joined(parts, sep).len() == 0 <==> parts.len() == 0,
    decreases parts.len(),
{
    if parts.len() > 1 {
        assert(parts.last().len() > 0);
    }
}

/// White space ends a word.
proof fn lemma_words_split(a: Seq<char>, c: char, b: Seq<char>)
    requires
        white_space(c),
    ensures
        words(a.push(c) + b) == words(a) + words(b),
    decreases a.len(),
{
    let s = a.push(c) + b;
    lemma_leading_space(a);
    let ls = leading_space(a);
    if is_blank(a) {
        lemma_leading_space(b);
        let n = (a.len() + 1 + leading_space(b)) as nat;
        assert forall|i: int| 0 <= i < n implies white_space(#[trigger] s[i]) by {
            if i < a.len() {
                assert(s[i] == a[i]);
            } else if i > a.len() {
                assert(s[i] == b[i - a.len() - 1]);
            }
        }
        if n < s.len() {
            assert(s[n as int] == b[leading_space(b) as int]);
        }
        lemma_leading_space_is(s, n);
        assert(s.skip(n as int) =~= b.skip(leading_space(b) as int));
        assert(a.skip(ls as int).len() == 0);
        assert(words(a) =~= Seq::<Seq<char>>::empty());
        assert(words(s) == words(b));
        assert(words(a) + words(b) =~= words(b));
    } else {
        assert(s[ls as int] == a[ls as int]);
        assert forall|i: int| 0 <= i < ls implies white_space(#[trigger] s[i]) by {
            assert(s[i] == a[i]);
        }
        lemma_leading_space_is(s, ls);
        let (ta, ts) = (a.skip(ls as int), s.skip(ls as int));
        assert(ts =~= ta.push(c) + b);
        lemma_leading_word(ta);
        let n = leading_word(ta);
        assert(ta[0] == a[ls as int]);
        assert(n > 0);
        assert forall|i: int| 0 <= i < n implies !white_space(#[trigger] ts[i]) by {
            assert(ts[i] == ta[i]);
        }
        if n < ta.len() {
            assert(ts[n as int] == ta[n as int]);
        } else {
            assert(ts[n as int] == c);
        }
        lemma_leading_word_is(ts, n);
        let rest = ta.skip(n as int);
        assert(ts.skip(n as int) =~= rest.push(c) + b);
        assert(ts.take(n as int) =~= ta.take(n as int));
        lemma_words_split(rest, c, b);
        assert(words(s) =~= words(a) + words(b));
    }
}

/// A text with its words one space apart: a word stays as it is, and what white space separates
/// is put one space apart, where there is something on both sides.
pub proof fn law_squeezed_words_are_one_space_apart(
    a: Seq<char>,
    c: char,
    b: Seq<char>,
    word: Seq<char>,
)
    requires
        white_space(c),
        forall|i: int| 0 <= i < word.len() ==> !white_space(#[trigger] word[i]),
    ensures
        squeezed(word) == word,
        squeezed(a.push(c) + b) == if squeezed(a).len() == 0 {
            squeezed(b)
        } else if squeezed(b).len() == 0 {
            squeezed(a)
        } else {
            squeezed(a) + seq![' '] + squeezed(b)
        },
{
    lemma_words_split(a, c, b);
    lemma_words(a);
    lemma_words(b);
    lemma_joined_empty(words(a), seq![' ']);
    lemma_joined_empty(words(b), seq![' ']);
    if words(a).len() == 0 {
        assert(words(a) + words(b) =~= words(b));
    } else if words(b).len() == 0 {
        assert(words(a) + words(b) =~= words(a));
    } else {
        lemma_joined_add(words(a), words(b), seq![' ']);
    }
    lemma_leading_space_is(word, 0);
    assert(word.skip(0) =~= word);
    lemma_leading_word_is(word, word.len());
    if word.len() > 0 {
        assert(word.skip(word.len() as int) =~= Seq::<char>::empty());
        assert(word.take(word.len() as int) =~= word);
        reveal_with_fuel(words, 2);
        assert(words(word) =~= seq![word]);
    } else {
        assert(squeezed(word) =~= word);
    }
}

/// A line without the carriage return that belongs to its line break.
pub open spec fn line_text(a: Seq<char>) -> Seq<char> {
    if a.len() > 0 && a[a.len() - 1] == '\r' {
        a.take(a.len() - 1)
    } else {
        a
    }
}

/// A line feed ends a line, together with a carriage return before it. The end of the text ends
/// one too.
pub proof fn law_line_feeds_end_lines(a: Seq<char>, b: Seq<char>)
    requires
        !a.contains('\n'),
    ensures
        lines(Seq::empty()) == Seq::<Seq<char>>::empty(),
        a.len() > 0 ==> lines(a) == seq![a],
        lines(a.push('\n') + b) == seq![line_text(a)] + lines(b),
{
    assert forall|i: int| 0 <= i < a.len() implies #[trigger] a[i] != '\n' by {
        assert(a.contains(a[i]));
    }
    let s = a.push('\n') + b;
    assert forall|i: int| 0 <= i < a.len() implies #[trigger] s[i] != '\n' by {
        assert(s[i] == a[i]);
    }
    lemma_line_end_is(a, a.len());
    lemma_line_end_is(s, a.len());
    assert(s.take(a.len() as int) =~= a);
    assert(s.skip(a.len() as int + 1) =~= b);
    assert(line_text(a) =~= crate::spacing::without_return(a));
}

/// A row is made of each line that is not blank.
pub proof fn law_blank_lines_are_skipped(a: Seq<char>, b: Seq<char>)
    requires
        !a.contains('\n'),
    ensures
        row_lines(Seq::empty()) == Seq::<Seq<char>>::empty(),
        row_lines(a) == if is_blank(a) {
            Seq::empty()
        } else {
            seq![a]
        },
        row_lines(a.push('\n') + b) == if is_blank(line_text(a)) {
            row_lines(b)
        } else {
            seq![line_text(a)] + row_lines(b)
        },
{
    law_line_feeds_end_lines(a, b);
    let keep = |l: Seq<char>| !is_blank(l);
    let one = seq![line_text(a)];
    Seq::filter_distributes_over_add(one, lines(b), keep);
    reveal_with_fuel(Seq::filter, 2);
    assert(one.drop_last() =~= Seq::<Seq<char>>::empty());
    assert(seq![a].drop_last() =~= Seq::<Seq<char>>::empty());
    let none = Seq::<Seq<char>>::empty();
    assert(none.filter(keep) =~= none);
    assert(one.filter(keep) =~= if is_blank(line_text(a)) {
        none
    } else {
        one
    });
    assert(seq![a].filter(keep) =~= if is_blank(a) {
        none
    } else {
        seq![a]
    });
    assert(none + row_lines(b) =~= row_lines(b));
    if a.len() == 0 {
        assert(a =~= Seq::<char>::empty());
    }
}

/// A number in decimal: its digits in order, each as its character.
pub proof fn law_numbers_are_decimal(n: nat, d: nat)
    requires
        d < 10,
    ensures
        digit(d) as u32 == 48 + d,
        decimal(d) == seq![digit(d)],
        n > 0 ==> decimal(10 * n + d) == decimal(n).push(digit(d)),
{
    reveal_strlit("0123456789");
    assert("0123456789"@.len() == 10);
    assert(digit(0) == '0' && digit(1) == '1' && digit(2) == '2' && digit(3) == '3' && digit(4)
        == '4' && digit(5) == '5' && digit(6) == '6' && digit(7) == '7' && digit(8) == '8'
        && digit(9) == '9');
    if n > 0 {
        assert((10 * n + d) / 10 == n && (10 * n + d) % 10 == d);
    }
}

/// A pointer names the step to each child in turn.
pub proof fn law_pointers_name_each_step(path: Seq<nat>, i: nat)
    ensures
        pointer(Seq::empty()) == Seq::<char>::empty(),
        pointer(path.push(i)) == pointer(path) + "/content/"@ + decimal(i),
{
    assert(path.push(i).drop_last() =~= path);
}

/// A text of up to eighty characters is quoted whole. A longer one is quoted up to there, with an
/// ellipsis behind it.
pub proof fn law_previews_are_cut_at_eighty(s: Seq<char>, rest: Seq<char>)
    ensures
        s.len() <= 80 ==> preview_text(s) == quoted_text(s),
        s.len() == 80 && rest.len() > 0 ==> preview_text(s + rest) == quoted_text(s) + "…"@,
{
    assert((s + rest).take(s.len() as int) =~= s);
}

/// Texts are ordered by the first character in which they differ, and a text comes before its
/// longer continuations.
pub proof fn law_texts_are_ordered_by_characters(
    same: Seq<char>,
    x: char,
    a: Seq<char>,
    y: char,
    b: Seq<char>,
)
    ensures
        x < y ==> precedes(same + seq![x] + a, same + seq![y] + b),
        x > y ==> !precedes(same + seq![x] + a, same + seq![y] + b),
        precedes(same, same + seq![x] + a),
        !precedes(same + seq![x] + a, same),
        !precedes(same, same),
    decreases same.len(),
{
    let (s, t) = (same + seq![x] + a, same + seq![y] + b);
    lemma_precedes_total(same, same);
    if same.len() > 0 {
        let rest = same.drop_first();
        assert(s.drop_first() =~= rest + seq![x] + a);
        assert(t.drop_first() =~= rest + seq![y] + b);
        law_texts_are_ordered_by_characters(rest, x, a, y, b);
    }
}

} // verus!
