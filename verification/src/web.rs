//! Presenting definitions as markup.

use crate::text::{chars_of, string_of};
use crate::types::{Definition, DefinitionView};
use vstd::prelude::*;

verus! {

/// What is left of `s` from position `i` on, with `<` written `&lt;` and `>`
/// written `&gt;`.
pub open spec fn escaped_from(s: Seq<char>, i: int) -> Seq<char>
    decreases s.len() - i,
{
    if 0 <= i < s.len() {
        if s[i] == '<' {
            seq!['&', 'l', 't', ';'] + escaped_from(s, i + 1)
        } else if s[i] == '>' {
            seq!['&', 'g', 't', ';'] + escaped_from(s, i + 1)
        } else {
            seq![s[i]] + escaped_from(s, i + 1)
        }
    } else {
        Seq::empty()
    }
}

/// `s` with its angle brackets escaped.
pub open spec fn escaped(s: Seq<char>) -> Seq<char> {
    escaped_from(s, 0)
}

/// What is left of `s` from position `i` on, with each `::` written `/`.
pub open spec fn slashed_from(s: Seq<char>, i: int) -> Seq<char>
    decreases s.len() - i,
{
    if 0 <= i < s.len() {
        if i + 1 < s.len() && s[i] == ':' && s[i + 1] == ':' {
            seq!['/'] + slashed_from(s, i + 2)
        } else {
            seq![s[i]] + slashed_from(s, i + 1)
        }
    } else {
        Seq::empty()
    }
}

/// A module path as the path of its page: `::` becomes `/`.
pub open spec fn slashed(s: Seq<char>) -> Seq<char> {
    slashed_from(s, 0)
}

/// A definition as a link to its documentation, followed by its signature
/// and its description.
pub open spec fn formatted(d: DefinitionView) -> Seq<char> {
    "<a href='http://dl.rust-lang.org/doc/"@ + slashed(d.path) + ".html#"@ + d.anchor
        + "' target='blank'>"@ + d.path + "::"@ + d.name + "</a> - "@ + escaped(d.signature)
        + " - "@ + escaped(d.desc)
}

/// `s` with `<` and `>` escaped for markup.
pub fn strip_brackets(s: &str) -> (r: String)
    ensures
        r@ == escaped(s@),
{
    let text = chars_of(s);
    let mut out: Vec<char> = Vec::new();
    let mut i: usize = 0;
    assert(out@ + escaped_from(text@, 0) =~= escaped_from(text@, 0));
    while i < text.len()
        invariant
            i <= text.len(),
            escaped(text@) == out@ + escaped_from(text@, i as int),
        decreases text.len() - i,
    {
        let ghost before = out@;
        let ghost rest = escaped_from(text@, i + 1);
        let c = text[i];
        if c == '<' {
            out.push('&');
            out.push('l');
            out.push('t');
            out.push(';');
            assert(before + (seq!['&', 'l', 't', ';'] + rest) =~= out@ + rest);
        } else if c == '>' {
            out.push('&');
            out.push('g');
            out.push('t');
            out.push(';');
            assert(before + (seq!['&', 'g', 't', ';'] + rest) =~= out@ + rest);
        } else {
            out.push(c);
            assert(before + (seq![c] + rest) =~= out@ + rest);
        }
        i += 1;
    }
    assert(out@ + Seq::<char>::empty() =~= out@);
    string_of(&out)
}

/// `s` with each `::` replaced by `/`.
fn slash_path(s: &str) -> (r: String)
    ensures
        r@ == slashed(s@),
{
    let text = chars_of(s);
    let mut out: Vec<char> = Vec::new();
    let mut i: usize = 0;
    assert(out@ + slashed_from(text@, 0) =~= slashed_from(text@, 0));
    while i < text.len()
        invariant
            i <= text.len(),
            slashed(text@) == out@ + slashed_from(text@, i as int),
        decreases text.len() - i,
    {
        let ghost before = out@;
        if i + 1 < text.len() && text[i] == ':' && text[i + 1] == ':' {
            out.push('/');
            assert(before + (seq!['/'] + slashed_from(text@, i + 2)) =~= out@ + slashed_from(
                text@,
                i + 2,
            ));
            i += 2;
        } else {
            out.push(text[i]);
            assert(before + (seq![text@[i as int]] + slashed_from(text@, i + 1)) =~= out@
                + slashed_from(text@, i + 1));
            i += 1;
        }
    }
    assert(out@ + Seq::<char>::empty() =~= out@);
    string_of(&out)
}

/// The markup that presents `d`: a link to its documentation, its signature
/// and its description.
pub fn format_def(d: &Definition) -> (r: String)
    ensures
        r@ == formatted(d@),
{
    let mut r = String::new();
    r.append("<a href='http://dl.rust-lang.org/doc/");
    r.append(slash_path(d.path.as_str()).as_str());
    r.append(".html#");
    r.append(d.anchor.as_str());
    r.append("' target='blank'>");
    r.append(d.path.as_str());
    r.append("::");
    r.append(d.name.as_str());
    r.append("</a> - ");
    r.append(strip_brackets(d.signature.as_str()).as_str());
    r.append(" - ");
    r.append(strip_brackets(d.desc.as_str()).as_str());
    assert(r@ =~= formatted(d@));
    r
}

} // verus!
