//! The signature grammar: from the text of a type or of a function signature
//! to type expressions.
//!
//! The grammar is defined by the spec functions `parse_arg_spec` and
//! `parse_signature_spec` on character sequences; the executable parsers are
//! proved to compute exactly those.

use crate::canon::{canonical_form, canonicalize_args, distinct_count, signature_vars};
use crate::text::{
    chars_of, depth_change, find_char, find_top_level, first_index_from, first_top_level,
    has_prefix, last_arrow_before, last_index_before, lemma_first_index_bounds,
    lemma_first_top_level_bounds, lemma_last_arrow_bounds, lemma_last_index_bounds,
    lemma_trimmed_len, next_level, rfind_arrow, rfind_char, slice, starts_with, string_of, trim,
    trimmed,
};
use crate::types::{
    arg_eq, arg_view, args_view, clone_arg, lemma_args_view, lemma_args_view_push, strings_view, unit_view,
    Arg, ArgView, Error, LETTERS,
};
use vstd::prelude::*;

verus! {

/// What `char::is_alphanumeric` answers for `c`: whether Unicode classes `c`
/// as a letter or a number.
pub uninterp spec fn alphanumeric(c: char) -> bool;

/// Whether `c` is an ASCII letter or an ASCII digit.
pub open spec fn ascii_alphanumeric(c: char) -> bool {
    ('0' <= c && c <= '9') || ('a' <= c && c <= 'z') || ('A' <= c && c <= 'Z')
}

/// `char::is_alphanumeric` is a function of the character alone, and among
/// the ASCII characters it holds of the letters and the digits and of no
/// other.
pub assume_specification[ char::is_alphanumeric ](c: char) -> (b: bool)
    ensures
        b == alphanumeric(c),
        (c as u32) < 128 ==> b == ascii_alphanumeric(c),
;

/// Whether `c` can continue a name: a letter or a digit. For an ASCII
/// character this is decided here; for any other it is what
/// `char::is_alphanumeric` answers.
pub open spec fn letter_or_digit(c: char) -> bool {
    if (c as u32) < 128 {
        ascii_alphanumeric(c)
    } else {
        alphanumeric(c)
    }
}

/// The marks of borrowing and ownership that may stand before a type.
pub open spec fn is_sigil(c: char) -> bool {
    c == ' ' || c == '&' || c == '~' || c == '@' || c == '+'
}

/// The first position at or after `i` that holds no sigil, or the end.
pub open spec fn leading_sigils(s: Seq<char>, i: int) -> int
    decreases s.len() - i,
{
    if 0 <= i < s.len() && is_sigil(s[i]) {
        leading_sigils(s, i + 1)
    } else {
        i
    }
}

/// The modifier `const `.
pub open spec fn const_word() -> Seq<char> {
    seq!['c', 'o', 'n', 's', 't', ' ']
}

/// The modifier `mut `.
pub open spec fn mut_word() -> Seq<char> {
    seq!['m', 'u', 't', ' ']
}

/// `s` without one leading `const ` or `mut `, if it has one.
pub open spec fn without_modifier(s: Seq<char>) -> Seq<char> {
    if has_prefix(s, const_word()) {
        trimmed(s.skip(6))
    } else if has_prefix(s, mut_word()) {
        trimmed(s.skip(4))
    } else {
        s
    }
}

/// `s` without its leading sigils and without one modifier after them.
pub open spec fn without_sigils(s: Seq<char>) -> Seq<char> {
    without_modifier(s.skip(leading_sigils(s, 0)))
}

/// The text between the first `(` and the last `)` of `s`, trimmed. Where one
/// of the two is missing, that side runs to the end of `s`.
pub open spec fn inside_parens(s: Seq<char>) -> Seq<char> {
    let b = first_index_from(s, '(', 0);
    let begin = if b < s.len() {
        b + 1
    } else {
        0
    };
    let e = last_index_before(s, ')', s.len() as int);
    let end = if e >= 0 {
        e
    } else {
        s.len() as int
    };
    if begin <= end {
        trimmed(s.subrange(begin, end))
    } else {
        Seq::empty()
    }
}

/// The segments that the scan of `t` from `i` still yields: `start` is where
/// the current segment began and `level` the nesting depth on arrival at `i`.
/// A comma at depth 0 ends a segment.
pub open spec fn split_from(t: Seq<char>, i: int, start: int, level: int) -> Seq<Seq<char>>
    decreases t.len() - i,
{
    if 0 <= i < t.len() {
        if t[i] == ',' && level == 0 {
            seq![trimmed(t.subrange(start, i))] + split_from(t, i + 1, i + 1, level)
        } else {
            split_from(t, i + 1, start, level + depth_change(t, i))
        }
    } else {
        Seq::empty()
    }
}

/// `s` cut at its commas of depth 0, each segment trimmed. A last segment
/// that ends inside a bracket is not part of the result.
pub open spec fn split_arguments_spec(s: Seq<char>) -> Seq<Seq<char>> {
    split_from(s.push(','), 0, 0, 0)
}

/// The length of all pieces together, counting one separator for each.
pub open spec fn total_len(pieces: Seq<Seq<char>>) -> nat
    decreases pieces.len(),
{
    if pieces.len() == 0 {
        0
    } else {
        pieces[0].len() + 1 + total_len(pieces.drop_first())
    }
}

pub proof fn lemma_leading_sigils_bounds(s: Seq<char>, i: int)
    requires
        0 <= i <= s.len(),
    ensures
        i <= leading_sigils(s, i) <= s.len(),
    decreases s.len() - i,
{
    if i < s.len() && is_sigil(s[i]) {
        lemma_leading_sigils_bounds(s, i + 1);
    }
}

/// Dropping a modifier never lengthens.
pub proof fn lemma_without_modifier_len(s: Seq<char>)
    ensures
        without_modifier(s).len() <= s.len(),
{
    if has_prefix(s, const_word()) {
        lemma_trimmed_len(s.skip(6));
    } else if has_prefix(s, mut_word()) {
        lemma_trimmed_len(s.skip(4));
    }
}

/// Dropping sigils never lengthens.
pub proof fn lemma_without_sigils_len(s: Seq<char>)
    ensures
        without_sigils(s).len() <= s.len(),
{
    lemma_leading_sigils_bounds(s, 0);
    lemma_without_modifier_len(s.skip(leading_sigils(s, 0)));
}

/// The segments of a scan fit in what is left of the text.
pub proof fn lemma_split_from_total(t: Seq<char>, i: int, start: int, level: int)
    requires
        0 <= start <= i <= t.len(),
    ensures
        total_len(split_from(t, i, start, level)) <= t.len() - start,
    decreases t.len() - i,
{
    if i < t.len() {
        if t[i] == ',' && level == 0 {
            let first = trimmed(t.subrange(start, i));
            let rest = split_from(t, i + 1, i + 1, level);
            lemma_trimmed_len(t.subrange(start, i));
            lemma_split_from_total(t, i + 1, i + 1, level);
            assert((seq![first] + rest).drop_first() =~= rest);
        } else {
            lemma_split_from_total(t, i + 1, start, level + depth_change(t, i));
        }
    }
}

/// The segments of `s`, with their separators, are no longer than `s` with one.
pub proof fn lemma_split_total(s: Seq<char>)
    ensures
        total_len(split_arguments_spec(s)) <= s.len() + 1,
{
    lemma_split_from_total(s.push(','), 0, 0, 0);
}

/// Whether `s` is written as a function type: `fn` and then a character that
/// cannot continue a name.
pub open spec fn is_fn_type(s: Seq<char>) -> bool {
    s.len() > 2 && s[0] == 'f' && s[1] == 'n' && !letter_or_digit(s[2])
}

/// The type of a parameter: what follows its first `:` outside brackets, or
/// the whole of it where there is none; `None` where nothing follows the `:`.
pub open spec fn param_type(piece: Seq<char>) -> Option<Seq<char>> {
    let c = first_top_level(piece, ':');
    if c >= piece.len() {
        Some(without_sigils(piece))
    } else if c + 1 == piece.len() {
        None
    } else {
        Some(without_sigils(piece.subrange(c + 1, piece.len() as int)))
    }
}

/// The type of a parameter is no longer than the parameter.
pub proof fn lemma_param_type_len(piece: Seq<char>)
    ensures
        param_type(piece) matches Some(t) ==> t.len() <= piece.len(),
{
    let c = first_top_level(piece, ':');
    lemma_first_top_level_bounds(piece, ':', 0, 0);
    if c >= piece.len() {
        lemma_without_sigils_len(piece);
    } else if c + 1 < piece.len() {
        lemma_without_sigils_len(piece.subrange(c + 1, piece.len() as int));
    }
}

/// The type expression that the text `su` denotes.
///
/// Sigils and one modifier are dropped first. What is left is, in this order:
/// nothing, the unit type; `[..]`, a vector; `(..)` of more than two
/// characters, a tuple; `fn` not followed by a letter or digit, a function
/// type; a name with `<..>` outside brackets, a generic type; one character, a
/// type variable; anything else, a type name.
pub open spec fn parse_arg_spec(su: Seq<char>) -> Result<ArgView, Error>
    decreases su.len() + 1, 0nat,
{
    let s = without_sigils(su);
    if s.len() == 0 {
        Ok(unit_view())
    } else if s[0] == '[' {
        let end = last_index_before(s, ']', s.len() as int);
        if end < 0 {
            Err(Error::MalformedType)
        } else {
            let inner = without_modifier(trimmed(s.subrange(1, end)));
            proof {
                lemma_without_sigils_len(su);
                lemma_last_index_bounds(s, ']', s.len() as int);
                lemma_trimmed_len(s.subrange(1, end));
                lemma_without_modifier_len(trimmed(s.subrange(1, end)));
            }
            match parse_arg_spec(inner) {
                Ok(e) => Ok(ArgView::Vec(Box::new(e))),
                Err(e) => Err(e),
            }
        }
    } else if s[0] == '(' && s.len() > 2 {
        let end = last_index_before(s, ')', s.len() as int);
        if end < 0 {
            Err(Error::MalformedType)
        } else {
            let inner = trimmed(s.subrange(1, end));
            proof {
                lemma_without_sigils_len(su);
                lemma_last_index_bounds(s, ')', s.len() as int);
                lemma_trimmed_len(s.subrange(1, end));
                lemma_split_total(inner);
            }
            match parse_each_spec(split_arguments_spec(inner)) {
                Ok(es) => Ok(ArgView::Tuple(es)),
                Err(e) => Err(e),
            }
        }
    } else if is_fn_type(s) {
        proof {
            lemma_without_sigils_len(su);
        }
        match parse_signature_spec(s) {
            Ok((args, ret)) => Ok(ArgView::Function(args, Box::new(ret))),
            Err(e) => Err(e),
        }
    } else {
        let lt = first_top_level(s, '<');
        if lt < s.len() {
            let gt = last_index_before(s, '>', s.len() as int);
            if gt < lt {
                Err(Error::MalformedType)
            } else {
                let inner = s.subrange(lt + 1, gt);
                proof {
                    lemma_without_sigils_len(su);
                    lemma_first_top_level_bounds(s, '<', 0, 0);
                    lemma_last_index_bounds(s, '>', s.len() as int);
                    lemma_split_total(inner);
                }
                match parse_each_spec(split_arguments_spec(inner)) {
                    Ok(ps) => Ok(
                        ArgView::Parametric(
                            Box::new(ArgView::Basic(trimmed(s.subrange(0, lt)))),
                            ps,
                        ),
                    ),
                    Err(e) => Err(e),
                }
            }
        } else if s.len() == 1 {
            Ok(ArgView::Constrained(s, Seq::empty()))
        } else {
            Ok(ArgView::Basic(s))
        }
    }
}

/// The type expressions that the texts `pieces` denote, or the first failure
/// among them from the left.
pub open spec fn parse_each_spec(pieces: Seq<Seq<char>>) -> Result<Seq<ArgView>, Error>
    decreases total_len(pieces), 1nat,
{
    if pieces.len() == 0 {
        Ok(Seq::empty())
    } else {
        match parse_arg_spec(pieces[0]) {
            Err(e) => Err(e),
            Ok(a) => match parse_each_spec(pieces.drop_first()) {
                Err(e) => Err(e),
                Ok(rest) => Ok(seq![a] + rest),
            },
        }
    }
}

/// The types of the parameters `pieces`, or the first failure among them from
/// the left: a name with no type after its `:` is a malformed signature.
pub open spec fn parse_params_spec(pieces: Seq<Seq<char>>) -> Result<Seq<ArgView>, Error>
    decreases total_len(pieces), 1nat,
{
    if pieces.len() == 0 {
        Ok(Seq::empty())
    } else {
        match param_type(pieces[0]) {
            None => Err(Error::MalformedSignature),
            Some(t) => {
                proof {
                    lemma_param_type_len(pieces[0]);
                }
                match parse_arg_spec(t) {
                    Err(e) => Err(e),
                    Ok(a) => match parse_params_spec(pieces.drop_first()) {
                        Err(e) => Err(e),
                        Ok(rest) => Ok(seq![a] + rest),
                    },
                }
            },
        }
    }
}

/// The argument types and the return type that the signature `s` denotes.
///
/// What follows the last `->` is the return type; without `->` it is the unit
/// type. The arguments stand between the first `(` and the last `)` of what
/// precedes, separated by commas of depth 0. The return type is read first:
/// its failure comes before that of the argument list.
pub open spec fn parse_signature_spec(s: Seq<char>) -> Result<(Seq<ArgView>, ArgView), Error>
    decreases s.len(), 2nat,
{
    let k = last_arrow_before(s, s.len() as int);
    let head = if k < 0 {
        s
    } else {
        s.subrange(0, k)
    };
    let ret = if k < 0 {
        Ok(unit_view())
    } else {
        proof {
            lemma_last_arrow_bounds(s, s.len() as int);
            lemma_trimmed_len(s.subrange(k + 2, s.len() as int));
        }
        parse_arg_spec(trimmed(s.subrange(k + 2, s.len() as int)))
    };
    match ret {
        Err(e) => Err(e),
        Ok(r) => {
            let b = first_index_from(head, '(', 0);
            let e = last_index_before(head, ')', head.len() as int);
            if b >= head.len() || e < b {
                Err(Error::MalformedSignature)
            } else {
                let body = trimmed(head.subrange(b + 1, e));
                if body.len() == 0 {
                    Ok((Seq::empty(), r))
                } else {
                    proof {
                        lemma_last_arrow_bounds(s, s.len() as int);
                        lemma_first_index_bounds(head, '(', 0);
                        lemma_last_index_bounds(head, ')', head.len() as int);
                        lemma_trimmed_len(head.subrange(b + 1, e));
                        lemma_split_total(body);
                    }
                    match parse_params_spec(split_arguments_spec(body)) {
                        Err(e) => Err(e),
                        Ok(args) => Ok((args, r)),
                    }
                }
            }
        },
    }
}

/// The values of a list of texts, in order.
pub open spec fn texts_view(s: Seq<Vec<char>>) -> Seq<Seq<char>> {
    Seq::new(s.len(), |i: int| s[i]@)
}

/// What a parse of a type returned, as a value.
pub open spec fn arg_result(r: Result<Arg, Error>) -> Result<ArgView, Error> {
    match r {
        Ok(a) => Ok(a@),
        Err(e) => Err(e),
    }
}

/// What a parse of a list of types returned, as a value.
pub open spec fn args_result(r: Result<Vec<Arg>, Error>) -> Result<Seq<ArgView>, Error> {
    match r {
        Ok(v) => Ok(args_view(v@)),
        Err(e) => Err(e),
    }
}

/// What a parse of a signature returned, as a value.
pub open spec fn signature_result(r: Result<(Vec<Arg>, Arg), Error>) -> Result<
    (Seq<ArgView>, ArgView),
    Error,
> {
    match r {
        Ok((v, t)) => Ok((args_view(v@), t@)),
        Err(e) => Err(e),
    }
}

/// Whether `c` is a sigil.
pub fn is_sigil_char(c: char) -> (b: bool)
    ensures
        b == is_sigil(c),
{
    c == ' ' || c == '&' || c == '~' || c == '@' || c == '+'
}

/// `v` without one leading `const ` or `mut `.
pub fn drop_modifier_chars(v: &Vec<char>) -> (r: Vec<char>)
    ensures
        r@ == without_modifier(v@),
{
    proof {
        reveal_strlit("const ");
        reveal_strlit("mut ");
        assert("const "@ =~= const_word());
        assert("mut "@ =~= mut_word());
    }
    if starts_with(v, &chars_of("const ")) {
        trim(&slice(v, 6, v.len()))
    } else if starts_with(v, &chars_of("mut ")) {
        trim(&slice(v, 4, v.len()))
    } else {
        let r = slice(v, 0, v.len());
        assert(r@ =~= v@);
        r
    }
}

/// `v` without its leading sigils and without one modifier after them.
pub fn strip_sigils(v: &Vec<char>) -> (r: Vec<char>)
    ensures
        r@ == without_sigils(v@),
{
    let mut i: usize = 0;
    while i < v.len() && is_sigil_char(v[i])
        invariant
            i <= v.len(),
            leading_sigils(v@, 0) == leading_sigils(v@, i as int),
        decreases v.len() - i,
    {
        i += 1;
    }
    drop_modifier_chars(&slice(v, i, v.len()))
}

/// The text between the first `(` and the last `)` of `v`, trimmed.
pub fn parens_body(v: &Vec<char>) -> (r: Vec<char>)
    ensures
        r@ == inside_parens(v@),
{
    let b = find_char(v, '(', 0);
    let begin: usize = if b < v.len() {
        b + 1
    } else {
        0
    };
    let end: usize = match rfind_char(v, ')') {
        Some(e) => e,
        None => v.len(),
    };
    if begin <= end {
        trim(&slice(v, begin, end))
    } else {
        Vec::new()
    }
}

/// `v` cut at its commas of depth 0, each segment trimmed.
pub fn split_chars(v: &Vec<char>) -> (pieces: Vec<Vec<char>>)
    ensures
        texts_view(pieces@) == split_arguments_spec(v@),
{
    let mut t = slice(v, 0, v.len());
    t.push(',');
    assert(t@ =~= v@.push(','));
    let mut pieces: Vec<Vec<char>> = Vec::new();
    let mut level: i128 = 0;
    let mut start: usize = 0;
    let mut i: usize = 0;
    assert(texts_view(pieces@) + split_from(t@, 0, 0, 0) =~= split_from(t@, 0, 0, 0));
    while i < t.len()
        invariant
            start <= i <= t.len(),
            -(i as int) <= level <= i as int,
            split_from(t@, 0, 0, 0) == texts_view(pieces@) + split_from(
                t@,
                i as int,
                start as int,
                level as int,
            ),
        decreases t.len() - i,
    {
        if t[i] == ',' && level == 0 {
            let ghost before = texts_view(pieces@);
            let piece = trim(&slice(&t, start, i));
            pieces.push(piece);
            assert(texts_view(pieces@) =~= before + seq![trimmed(t@.subrange(start as int, i as int))]);
            assert(before + (seq![trimmed(t@.subrange(start as int, i as int))] + split_from(
                t@,
                i + 1,
                i + 1,
                level as int,
            )) =~= texts_view(pieces@) + split_from(t@, i + 1, i + 1, level as int));
            start = i + 1;
        } else {
            level = next_level(&t, i, level);
        }
        i += 1;
    }
    assert(texts_view(pieces@) + Seq::<Seq<char>>::empty() =~= texts_view(pieces@));
    pieces
}

/// Parses `su` as a type expression.
pub fn parse_type_chars(su: &Vec<char>) -> (r: Result<Arg, Error>)
    ensures
        arg_result(r) == parse_arg_spec(su@),
    decreases su@.len() + 1, 0nat,
{
    let s = strip_sigils(su);
    proof {
        lemma_without_sigils_len(su@);
    }
    if s.len() == 0 {
        let unit = Arg::Tuple(Vec::new());
        assert(unit@ == unit_view()) by {
            assert(args_view(Seq::<Arg>::empty()) =~= Seq::<ArgView>::empty());
        }
        return Ok(unit);
    }
    if s[0] == '[' {
        match rfind_char(&s, ']') {
            None => Err(Error::MalformedType),
            Some(end) => {
                let inner = drop_modifier_chars(&trim(&slice(&s, 1, end)));
                proof {
                    lemma_trimmed_len(s@.subrange(1, end as int));
                    lemma_without_modifier_len(trimmed(s@.subrange(1, end as int)));
                }
                match parse_type_chars(&inner) {
                    Ok(e) => Ok(Arg::Vec(Box::new(e))),
                    Err(e) => Err(e),
                }
            },
        }
    } else if s[0] == '(' && s.len() > 2 {
        match rfind_char(&s, ')') {
            None => Err(Error::MalformedType),
            Some(end) => {
                let inner = trim(&slice(&s, 1, end));
                let pieces = split_chars(&inner);
                proof {
                    lemma_trimmed_len(s@.subrange(1, end as int));
                    lemma_split_total(inner@);
                }
                match parse_each_chars(&pieces) {
                    Ok(es) => Ok(Arg::Tuple(es)),
                    Err(e) => Err(e),
                }
            },
        }
    } else if s.len() > 2 && s[0] == 'f' && s[1] == 'n' && !s[2].is_alphanumeric() {
        match parse_signature_chars(&s) {
            Ok((args, ret)) => Ok(Arg::Function(args, Box::new(ret))),
            Err(e) => Err(e),
        }
    } else {
        let lt = find_top_level(&s, '<');
        if lt < s.len() {
            match rfind_char(&s, '>') {
                None => Err(Error::MalformedType),
                Some(gt) => {
                    if gt < lt {
                        Err(Error::MalformedType)
                    } else {
                        let inner = slice(&s, lt + 1, gt);
                        let pieces = split_chars(&inner);
                        proof {
                            lemma_split_total(inner@);
                        }
                        match parse_each_chars(&pieces) {
                            Ok(ps) => {
                                let base = Arg::Basic(string_of(&trim(&slice(&s, 0, lt))));
                                assert(base@ == ArgView::Basic(trimmed(s@.subrange(0, lt as int))));
                                Ok(Arg::Parametric(Box::new(base), ps))
                            },
                            Err(e) => Err(e),
                        }
                    }
                },
            }
        } else if s.len() == 1 {
            let var = Arg::Constrained(string_of(&s), Vec::new());
            assert(var@ == ArgView::Constrained(s@, Seq::empty())) by {
                assert(crate::types::constraints_view(Seq::empty()) =~= Seq::<Seq<char>>::empty());
            }
            Ok(var)
        } else {
            Ok(Arg::Basic(string_of(&s)))
        }
    }
}

/// Parses each of `pieces` as a type expression, up to the first failure.
pub fn parse_each_chars(pieces: &Vec<Vec<char>>) -> (r: Result<Vec<Arg>, Error>)
    ensures
        args_result(r) == parse_each_spec(texts_view(pieces@)),
    decreases total_len(texts_view(pieces@)), 1nat,
{
    let ghost all = texts_view(pieces@);
    let mut out: Vec<Arg> = Vec::new();
    let mut i: usize = 0;
    proof {
        assert(all.skip(0) =~= all);
        assert(args_view(out@) =~= Seq::<ArgView>::empty());
    }
    while i < pieces.len()
        invariant
            i <= pieces.len(),
            all == texts_view(pieces@),
            total_len(all.skip(i as int)) <= total_len(all),
            parse_each_spec(all) == match parse_each_spec(all.skip(i as int)) {
                Ok(rest) => Ok::<Seq<ArgView>, Error>(args_view(out@) + rest),
                Err(e) => Err(e),
            },
        decreases pieces.len() - i,
    {
        proof {
            assert(all.skip(i as int).drop_first() =~= all.skip(i + 1));
            assert(all.skip(i as int)[0] == pieces@[i as int]@);
        }
        match parse_type_chars(&pieces[i]) {
            Err(e) => {
                return Err(e);
            },
            Ok(a) => {
                proof {
                    lemma_args_view_push(out@, a);
                    match parse_each_spec(all.skip(i + 1)) {
                        Ok(rest) => {
                            assert(args_view(out@) + (seq![a@] + rest) =~= args_view(out@).push(a@)
                                + rest);
                        },
                        Err(e) => {},
                    }
                }
                out.push(a);
            },
        }
        i += 1;
    }
    proof {
        assert(args_view(out@) + Seq::<ArgView>::empty() =~= args_view(out@));
    }
    Ok(out)
}

/// The type of a parameter, without its name.
pub fn param_type_chars(piece: &Vec<char>) -> (r: Option<Vec<char>>)
    ensures
        match r {
            Some(t) => param_type(piece@) == Some(t@),
            None => param_type(piece@) is None,
        },
{
    let c = find_top_level(piece, ':');
    if c >= piece.len() {
        Some(strip_sigils(piece))
    } else if c + 1 == piece.len() {
        None
    } else {
        Some(strip_sigils(&slice(piece, c + 1, piece.len())))
    }
}

/// Parses each of `pieces` as a parameter, up to the first failure.
pub fn parse_params_chars(pieces: &Vec<Vec<char>>) -> (r: Result<Vec<Arg>, Error>)
    ensures
        args_result(r) == parse_params_spec(texts_view(pieces@)),
    decreases total_len(texts_view(pieces@)), 1nat,
{
    let ghost all = texts_view(pieces@);
    let mut out: Vec<Arg> = Vec::new();
    let mut i: usize = 0;
    proof {
        assert(all.skip(0) =~= all);
        assert(args_view(out@) =~= Seq::<ArgView>::empty());
    }
    while i < pieces.len()
        invariant
            i <= pieces.len(),
            all == texts_view(pieces@),
            total_len(all.skip(i as int)) <= total_len(all),
            parse_params_spec(all) == match parse_params_spec(all.skip(i as int)) {
                Ok(rest) => Ok::<Seq<ArgView>, Error>(args_view(out@) + rest),
                Err(e) => Err(e),
            },
        decreases pieces.len() - i,
    {
        proof {
            assert(all.skip(i as int).drop_first() =~= all.skip(i + 1));
            assert(all.skip(i as int)[0] == pieces@[i as int]@);
            lemma_param_type_len(pieces@[i as int]@);
        }
        match param_type_chars(&pieces[i]) {
            None => {
                return Err(Error::MalformedSignature);
            },
            Some(t) => match parse_type_chars(&t) {
                Err(e) => {
                    return Err(e);
                },
                Ok(a) => {
                    proof {
                        lemma_args_view_push(out@, a);
                        match parse_params_spec(all.skip(i + 1)) {
                            Ok(rest) => {
                                assert(args_view(out@) + (seq![a@] + rest) =~= args_view(
                                    out@,
                                ).push(a@) + rest);
                            },
                            Err(e) => {},
                        }
                    }
                    out.push(a);
                },
            },
        }
        i += 1;
    }
    proof {
        assert(args_view(out@) + Seq::<ArgView>::empty() =~= args_view(out@));
    }
    Ok(out)
}

/// Parses `s` as a function signature: its argument types and its return type.
pub fn parse_signature_chars(s: &Vec<char>) -> (r: Result<(Vec<Arg>, Arg), Error>)
    ensures
        signature_result(r) == parse_signature_spec(s@),
    decreases s@.len(), 2nat,
{
    let arrow = rfind_arrow(s);
    let head: Vec<char>;
    let ret: Arg;
    match arrow {
        None => {
            head = slice(s, 0, s.len());
            assert(head@ =~= s@);
            ret = Arg::Tuple(Vec::new());
            assert(ret@ == unit_view()) by {
                assert(args_view(Seq::<Arg>::empty()) =~= Seq::<ArgView>::empty());
            }
        },
        Some(k) => {
            head = slice(s, 0, k);
            let text = trim(&slice(s, k + 2, s.len()));
            proof {
                lemma_trimmed_len(s@.subrange(k + 2, s@.len() as int));
            }
            match parse_type_chars(&text) {
                Err(e) => {
                    return Err(e);
                },
                Ok(t) => {
                    ret = t;
                },
            }
        },
    }
    let b = find_char(&head, '(', 0);
    if b >= head.len() {
        return Err(Error::MalformedSignature);
    }
    match rfind_char(&head, ')') {
        None => Err(Error::MalformedSignature),
        Some(e) => {
            if e < b {
                return Err(Error::MalformedSignature);
            }
            let body = trim(&slice(&head, b + 1, e));
            if body.len() == 0 {
                let none: Vec<Arg> = Vec::new();
                assert(args_view(none@) =~= Seq::<ArgView>::empty());
                return Ok((none, ret));
            }
            let pieces = split_chars(&body);
            proof {
                lemma_trimmed_len(head@.subrange(b + 1, e as int));
                lemma_split_total(body@);
            }
            match parse_params_chars(&pieces) {
                Err(e) => Err(e),
                Ok(args) => Ok((args, ret)),
            }
        },
    }
}

/// Cuts `a` at its commas outside brackets and trims each segment, so that
/// the commas inside `<..>` and `(..)` do not separate.
pub fn split_arguments(a: &str) -> (r: Vec<String>)
    ensures
        strings_view(r@) == split_arguments_spec(a@),
{
    let pieces = split_chars(&chars_of(a));
    let mut r: Vec<String> = Vec::new();
    let mut i: usize = 0;
    while i < pieces.len()
        invariant
            i <= pieces.len(),
            r.len() == i,
            forall|k: int| 0 <= k < i ==> r@[k]@ == pieces@[k]@,
        decreases pieces.len() - i,
    {
        r.push(string_of(&pieces[i]));
        i += 1;
    }
    assert(strings_view(r@) =~= texts_view(pieces@));
    r
}

/// Parses `su` as a type expression.
pub fn parse_arg(su: &str) -> (r: Result<Arg, Error>)
    ensures
        arg_result(r) == parse_arg_spec(su@),
{
    parse_type_chars(&chars_of(su))
}

/// `s` without one leading `const ` or `mut `; what is left is trimmed.
pub fn drop_modifiers(s: &str) -> (r: String)
    ensures
        r@ == without_modifier(s@),
{
    string_of(&drop_modifier_chars(&chars_of(s)))
}

/// `s` without the sigils in front of it and without one modifier after them.
pub fn trim_sigils(s: &str) -> (r: String)
    ensures
        r@ == without_sigils(s@),
{
    string_of(&strip_sigils(&chars_of(s)))
}

/// The text between the first `(` and the last `)` of `s`, trimmed.
pub fn trim_parens(s: &str) -> (r: String)
    ensures
        r@ == inside_parens(s@),
{
    string_of(&parens_body(&chars_of(s)))
}

/// `a` with every occurrence of `old` as a subexpression replaced by `new`.
/// An occurrence is found from the outside in: what replaces it is not
/// searched again.
pub open spec fn replace_spec(a: ArgView, old: ArgView, new: ArgView) -> ArgView
    decreases a,
{
    if a == old {
        new
    } else {
        match a {
            ArgView::Vec(e) => ArgView::Vec(Box::new(replace_spec(*e, old, new))),
            ArgView::Tuple(es) => ArgView::Tuple(replace_all_spec(es, old, new)),
            ArgView::Parametric(b, ps) => ArgView::Parametric(
                Box::new(replace_spec(*b, old, new)),
                replace_all_spec(ps, old, new),
            ),
            ArgView::Function(xs, r) => ArgView::Function(
                replace_all_spec(xs, old, new),
                Box::new(replace_spec(*r, old, new)),
            ),
            _ => a,
        }
    }
}

/// Each expression of `s` with `old` replaced by `new`.
pub open spec fn replace_all_spec(s: Seq<ArgView>, old: ArgView, new: ArgView) -> Seq<ArgView>
    decreases s,
{
    if s.len() == 0 {
        Seq::empty()
    } else {
        replace_all_spec(s.drop_last(), old, new).push(replace_spec(s.last(), old, new))
    }
}

/// `replace_all_spec` works element by element.
pub proof fn lemma_replace_all(s: Seq<ArgView>, old: ArgView, new: ArgView)
    ensures
        replace_all_spec(s, old, new).len() == s.len(),
        forall|i: int|
            0 <= i < s.len() ==> #[trigger] replace_all_spec(s, old, new)[i] == replace_spec(
                s[i],
                old,
                new,
            ),
    decreases s.len(),
{
    if s.len() > 0 {
        lemma_replace_all(s.drop_last(), old, new);
    }
}

/// `a` with every occurrence of `old` replaced by `new`.
pub fn replace_arg(a: &Arg, old: &Arg, new: &Arg) -> (r: Arg)
    ensures
        r@ == replace_spec(a@, old@, new@),
    decreases a, 0nat,
{
    if arg_eq(a, old) {
        return clone_arg(new);
    }
    match a {
        Arg::Vec(e) => Arg::Vec(Box::new(replace_arg(e, old, new))),
        Arg::Tuple(es) => Arg::Tuple(replace_args(es, old, new)),
        Arg::Parametric(b, ps) => Arg::Parametric(
            Box::new(replace_arg(b, old, new)),
            replace_args(ps, old, new),
        ),
        Arg::Function(xs, t) => Arg::Function(
            replace_args(xs, old, new),
            Box::new(replace_arg(t, old, new)),
        ),
        _ => clone_arg(a),
    }
}

/// Each expression of `v` with every occurrence of `old` replaced by `new`.
pub fn replace_args(v: &Vec<Arg>, old: &Arg, new: &Arg) -> (r: Vec<Arg>)
    ensures
        args_view(r@) == replace_all_spec(args_view(v@), old@, new@),
    decreases v, 1nat,
{
    let mut r: Vec<Arg> = Vec::new();
    let mut i: usize = 0;
    while i < v.len()
        invariant
            i <= v.len(),
            r.len() == i,
            forall|k: int| 0 <= k < i ==> arg_view(r@[k]) == replace_spec(arg_view(v@[k]), old@, new@),
        decreases v.len() - i,
    {
        r.push(replace_arg(&v[i], old, new));
        i += 1;
    }
    proof {
        lemma_args_view(r@);
        lemma_args_view(v@);
        lemma_replace_all(args_view(v@), old@, new@);
        assert(args_view(r@) =~= replace_all_spec(args_view(v@), old@, new@));
    }
    r
}

/// What the signature `text` of a function with receiver `self_type` denotes:
/// the receiver, if there is one and it is not empty, is the first argument.
/// With `canonicalize` the type variables are renamed and counted; without,
/// the count is 0.
pub open spec fn signature_spec(
    text: Seq<char>,
    self_type: Option<Seq<char>>,
    canonicalize: bool,
) -> Result<(Seq<ArgView>, ArgView, nat), Error> {
    let receiver = match self_type {
        Some(s) => if s.len() > 0 {
            match parse_arg_spec(without_sigils(s)) {
                Ok(a) => Ok(seq![a]),
                Err(e) => Err(e),
            }
        } else {
            Ok(Seq::empty())
        },
        None => Ok(Seq::empty()),
    };
    match receiver {
        Err(e) => Err(e),
        Ok(first) => match parse_signature_spec(text) {
            Err(e) => Err(e),
            Ok((args, ret)) => {
                let all = first + args;
                if !canonicalize {
                    Ok((all, ret, 0nat))
                } else if distinct_count(signature_vars(all, ret)) > LETTERS {
                    Err(Error::TooManyTypeVariables)
                } else {
                    Ok(canonical_form(all, ret))
                }
            },
        },
    }
}

/// What a parse of a signature with its variable count returned, as a value.
pub open spec fn counted_result(r: Result<(Vec<Arg>, Arg, usize), Error>) -> Result<
    (Seq<ArgView>, ArgView, nat),
    Error,
> {
    match r {
        Ok((v, t, n)) => Ok((args_view(v@), t@, n as nat)),
        Err(e) => Err(e),
    }
}

/// Parses the signature `arg_list` of a function: the types of its arguments,
/// led by the receiver `self_type` where there is one, its return type, and,
/// with `canonicalize`, the number of its type variables.
pub fn parse_signature(arg_list: &str, self_type: Option<&str>, canonicalize: bool) -> (r: Result<
    (Vec<Arg>, Arg, usize),
    Error,
>)
    ensures
        counted_result(r) == signature_spec(
            arg_list@,
            match self_type {
                Some(s) => Some(s@),
                None => None,
            },
            canonicalize,
        ),
{
    let mut all: Vec<Arg> = Vec::new();
    assert(args_view(all@) =~= Seq::<ArgView>::empty());
    match self_type {
        Some(s) => {
            let text = chars_of(s);
            if text.len() > 0 {
                match parse_type_chars(&strip_sigils(&text)) {
                    Err(e) => {
                        return Err(e);
                    },
                    Ok(a) => {
                        proof {
                            lemma_args_view_push(all@, a);
                        }
                        all.push(a);
                        assert(args_view(all@) =~= seq![a@]);
                    },
                }
            }
        },
        None => {},
    }
    let ghost first = args_view(all@);
    match parse_signature_chars(&chars_of(arg_list)) {
        Err(e) => Err(e),
        Ok((mut args, ret)) => {
            let ghost rest = args_view(args@);
            proof {
                lemma_args_view(all@);
                lemma_args_view(args@);
                lemma_args_view(all@ + args@);
                assert(args_view(all@ + args@) =~= first + rest);
            }
            all.append(&mut args);
            if canonicalize {
                canonicalize_args(all, ret)
            } else {
                Ok((all, ret, 0))
            }
        },
    }
}

} // verus!
