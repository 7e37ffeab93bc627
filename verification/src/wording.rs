//! Numbers and quoted text in messages.

use vstd::prelude::*;
use vstd::string::*;

use crate::text::chars;

verus! {

/// How many characters of a text a preview shows.
pub const PREVIEW_CHARS: usize = 80;

/// The character of a decimal digit.
pub open spec fn digit(d: nat) -> char {
    "0123456789"@[d as int]
}

/// A number in decimal, without leading zeros.
pub open spec fn decimal(n: nat) -> Seq<char>
    decreases n,
{
    if n < 10 {
        seq![digit(n)]
    } else {
        decimal(n / 10).push(digit(n % 10))
    }
}

/// A text in double quotes, with the characters escaped that Rust's `Debug` escapes.
pub uninterp spec fn quoted_text(s: Seq<char>) -> Seq<char>;

/// A text quoted, and cut with an ellipsis if it is long.
pub open spec fn preview_text(s: Seq<char>) -> Seq<char> {
    if s.len() > PREVIEW_CHARS {
        quoted_text(s.take(PREVIEW_CHARS as int)) + "…"@
    } else {
        quoted_text(s)
    }
}

fn digit_text(d: usize) -> (r: &'static str)
    requires
        d < 10,
    ensures
        r@ == seq![digit(d as nat)],
{
    proof {
        reveal_strlit("0123456789");
    }
    let r: &str = "0123456789".substring_char(d, d + 1);
    assert(r@ =~= seq![digit(d as nat)]);
    r
}

/// A number in decimal.
pub fn number_text(n: usize) -> (r: String)
    ensures
        r@ == decimal(n as nat),
    decreases n,
{
    if n < 10 {
        digit_text(n).to_owned()
    } else {
        let mut r: String = number_text(n / 10);
        r.append(digit_text(n % 10));
        assert(r@ =~= decimal(n as nat));
        r
    }
}

/// `<str as Debug>::fmt`, through `format!("{:?}")`: the text in double quotes, escaped. The
/// result is named, not spelt out.
#[verifier::external_body]
fn quoted(s: &str) -> (r: String)
    ensures
        r@ == quoted_text(s@),
{
    format!("{:?}", s)
}

/// A text quoted, and cut with an ellipsis if it is long.
pub fn preview(text: &str) -> (r: String)
    ensures
        r@ == preview_text(text@),
{
    let cs: Vec<char> = chars(text);
    if cs.len() > PREVIEW_CHARS {
        let mut r: String = quoted(text.substring_char(0, PREVIEW_CHARS));
        r.append("…");
        assert(text@.subrange(0, PREVIEW_CHARS as int) =~= text@.take(PREVIEW_CHARS as int));
        r
    } else {
        quoted(text)
    }
}

} // verus!
