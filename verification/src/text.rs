//! Character sequences: the scanning and slicing primitives the signature
//! grammar is written in.
//!
//! Every executable function here works on a `Vec<char>` and is specified by a
//! spec function on the `Seq<char>` it views as. Scans are defined as forward
//! (or backward) walks from a position, which is also how they are computed.

use vstd::prelude::*;

verus! {

/// `String::push` appends one character.
pub assume_specification[ String::push ](s: &mut String, c: char)
    ensures
        final(s)@ == old(s)@.push(c),
;

/// Unicode `White_Space`.
pub open spec fn is_space(c: char) -> bool {
    let n = c as u32;
    ||| 0x09 <= n <= 0x0d
    ||| n == 0x20
    ||| n == 0x85
    ||| n == 0xa0
    ||| n == 0x1680
    ||| 0x2000 <= n <= 0x200a
    ||| n == 0x2028
    ||| n == 0x2029
    ||| n == 0x202f
    ||| n == 0x205f
    ||| n == 0x3000
}

/// The first position at or after `i` that holds no white space, or the end.
pub open spec fn leading_spaces(s: Seq<char>, i: int) -> int
    decreases s.len() - i,
{
    if 0 <= i < s.len() && is_space(s[i]) {
        leading_spaces(s, i + 1)
    } else {
        i
    }
}

/// The smallest end `e` with `lo <= e <= i` such that `s[e..i]` is all white space.
pub open spec fn trailing_spaces(s: Seq<char>, lo: int, i: int) -> int
    decreases i,
{
    if lo < i <= s.len() && 0 < i && is_space(s[i - 1]) {
        trailing_spaces(s, lo, i - 1)
    } else {
        i
    }
}

/// `s` without the white space at either end.
pub open spec fn trimmed(s: Seq<char>) -> Seq<char> {
    let a = leading_spaces(s, 0);
    let b = trailing_spaces(s, a, s.len() as int);
    s.subrange(a, b)
}

/// The first position at or after `i` that holds `c`, or the length of `s`.
pub open spec fn first_index_from(s: Seq<char>, c: char, i: int) -> int
    decreases s.len() - i,
{
    if 0 <= i < s.len() && s[i] != c {
        first_index_from(s, c, i + 1)
    } else {
        i
    }
}

/// The last position before `i` that holds `c`, or -1.
pub open spec fn last_index_before(s: Seq<char>, c: char, i: int) -> int
    decreases i,
{
    if 0 < i <= s.len() && s[i - 1] != c {
        last_index_before(s, c, i - 1)
    } else {
        i - 1
    }
}

/// The position of the last `->` that ends at or before `i`, or -1.
pub open spec fn last_arrow_before(s: Seq<char>, i: int) -> int
    decreases i,
{
    if 2 <= i <= s.len() {
        if s[i - 2] == '-' && s[i - 1] == '>' {
            i - 2
        } else {
            last_arrow_before(s, i - 1)
        }
    } else {
        -1
    }
}

/// By how much the character at `i` changes the nesting depth: `<` and `(`
/// open a level, `)` and `>` close one, except a `>` that completes `->`.
pub open spec fn depth_change(s: Seq<char>, i: int) -> int {
    let c = s[i];
    if c == '<' || c == '(' {
        1
    } else if c == ')' {
        -1
    } else if c == '>' && !(i > 0 && s[i - 1] == '-') {
        -1
    } else {
        0
    }
}

/// The first position at or after `i` that holds `c` at nesting depth 0, or
/// the length of `s`; `level` is the depth on arrival at `i`.
pub open spec fn first_top_level_from(s: Seq<char>, c: char, i: int, level: int) -> int
    decreases s.len() - i,
{
    if 0 <= i < s.len() && !(s[i] == c && level == 0) {
        first_top_level_from(s, c, i + 1, level + depth_change(s, i))
    } else {
        i
    }
}

/// The first position that holds `c` outside every bracket, or the length of `s`.
pub open spec fn first_top_level(s: Seq<char>, c: char) -> int {
    first_top_level_from(s, c, 0, 0)
}

/// `p` stands at the start of `s`.
pub open spec fn has_prefix(s: Seq<char>, p: Seq<char>) -> bool {
    p.len() <= s.len() && s.subrange(0, p.len() as int) == p
}

/// `p` stands in `s` at position `i`.
pub open spec fn occurs_at(s: Seq<char>, p: Seq<char>, i: int) -> bool {
    0 <= i && i + p.len() <= s.len() && s.subrange(i, i + p.len()) == p
}

/// `p` stands somewhere in `s`.
pub open spec fn contains_seq(s: Seq<char>, p: Seq<char>) -> bool {
    exists|i: int| occurs_at(s, p, i)
}

/// Lexicographic order by code point: `a` comes before `b` or equals it.
pub open spec fn text_le(a: Seq<char>, b: Seq<char>) -> bool
    decreases a.len(),
{
    if a.len() == 0 {
        true
    } else if b.len() == 0 {
        false
    } else if a[0] == b[0] {
        text_le(a.drop_first(), b.drop_first())
    } else {
        (a[0] as u32) < (b[0] as u32)
    }
}

pub proof fn lemma_leading_spaces_bounds(s: Seq<char>, i: int)
    requires
        0 <= i <= s.len(),
    ensures
        i <= leading_spaces(s, i) <= s.len(),
    decreases s.len() - i,
{
    if i < s.len() && is_space(s[i]) {
        lemma_leading_spaces_bounds(s, i + 1);
    }
}

pub proof fn lemma_trailing_spaces_bounds(s: Seq<char>, lo: int, i: int)
    requires
        0 <= lo <= i <= s.len(),
    ensures
        lo <= trailing_spaces(s, lo, i) <= i,
    decreases i,
{
    if lo < i && is_space(s[i - 1]) {
        lemma_trailing_spaces_bounds(s, lo, i - 1);
    }
}

/// Trimming never lengthens.
pub proof fn lemma_trimmed_len(s: Seq<char>)
    ensures
        trimmed(s).len() <= s.len(),
{
    lemma_leading_spaces_bounds(s, 0);
    lemma_trailing_spaces_bounds(s, leading_spaces(s, 0), s.len() as int);
}

pub proof fn lemma_first_index_bounds(s: Seq<char>, c: char, i: int)
    requires
        0 <= i <= s.len(),
    ensures
        i <= first_index_from(s, c, i) <= s.len(),
        first_index_from(s, c, i) < s.len() ==> s[first_index_from(s, c, i)] == c,
    decreases s.len() - i,
{
    if i < s.len() && s[i] != c {
        lemma_first_index_bounds(s, c, i + 1);
    }
}

pub proof fn lemma_last_index_bounds(s: Seq<char>, c: char, i: int)
    requires
        0 <= i <= s.len(),
    ensures
        -1 <= last_index_before(s, c, i) < i,
        last_index_before(s, c, i) >= 0 ==> s[last_index_before(s, c, i)] == c,
    decreases i,
{
    if 0 < i && s[i - 1] != c {
        lemma_last_index_bounds(s, c, i - 1);
    }
}

pub proof fn lemma_last_arrow_bounds(s: Seq<char>, i: int)
    requires
        0 <= i <= s.len(),
    ensures
        -1 <= last_arrow_before(s, i),
        last_arrow_before(s, i) + 2 <= i || last_arrow_before(s, i) == -1,
    decreases i,
{
    if 2 <= i && !(s[i - 2] == '-' && s[i - 1] == '>') {
        lemma_last_arrow_bounds(s, i - 1);
    }
}

pub proof fn lemma_first_top_level_bounds(s: Seq<char>, c: char, i: int, level: int)
    requires
        0 <= i <= s.len(),
    ensures
        i <= first_top_level_from(s, c, i, level) <= s.len(),
        first_top_level_from(s, c, i, level) < s.len() ==> s[first_top_level_from(s, c, i, level)]
            == c,
    decreases s.len() - i,
{
    if i < s.len() && !(s[i] == c && level == 0) {
        lemma_first_top_level_bounds(s, c, i + 1, level + depth_change(s, i));
    }
}

/// The characters of `s`, in order.
pub fn chars_of(s: &str) -> (v: Vec<char>)
    ensures
        v@ == s@,
{
    let mut v: Vec<char> = Vec::new();
    let mut it = s.chars();
    for c in iter: it
        invariant
            v@ == iter.seq().take(iter.index()),
    {
        v.push(c);
    }
    v
}

/// The string made of the characters of `v`, in order.
pub fn string_of(v: &Vec<char>) -> (s: String)
    ensures
        s@ == v@,
{
    let mut s = String::new();
    let mut i: usize = 0;
    while i < v.len()
        invariant
            i <= v.len(),
            s@ == v@.take(i as int),
        decreases v.len() - i,
    {
        s.push(v[i]);
        assert(v@.take(i as int).push(v@[i as int]) =~= v@.take(i + 1));
        i += 1;
    }
    assert(v@.take(v.len() as int) =~= v@);
    s
}

/// Whether `c` is white space.
pub fn is_whitespace(c: char) -> (b: bool)
    ensures
        b == is_space(c),
{
    let n: u32 = c as u32;
    (0x09 <= n && n <= 0x0d) || n == 0x20 || n == 0x85 || n == 0xa0 || n == 0x1680 || (0x2000 <= n
        && n <= 0x200a) || n == 0x2028 || n == 0x2029 || n == 0x202f || n == 0x205f || n == 0x3000
}

/// A copy of `v[a..b]`.
pub fn slice(v: &Vec<char>, a: usize, b: usize) -> (r: Vec<char>)
    requires
        a <= b <= v.len(),
    ensures
        r@ == v@.subrange(a as int, b as int),
{
    let mut r: Vec<char> = Vec::new();
    let mut i: usize = a;
    while i < b
        invariant
            a <= i <= b <= v.len(),
            r@ == v@.subrange(a as int, i as int),
        decreases b - i,
    {
        r.push(v[i]);
        assert(v@.subrange(a as int, i as int).push(v@[i as int]) =~= v@.subrange(
            a as int,
            i + 1,
        ));
        i += 1;
    }
    r
}

/// The first position at or after `from` that holds no white space.
pub fn skip_spaces(v: &Vec<char>, from: usize) -> (r: usize)
    requires
        from <= v.len(),
    ensures
        r == leading_spaces(v@, from as int),
        from <= r <= v.len(),
{
    let mut i: usize = from;
    while i < v.len() && is_whitespace(v[i])
        invariant
            from <= i <= v.len(),
            leading_spaces(v@, from as int) == leading_spaces(v@, i as int),
        decreases v.len() - i,
    {
        i += 1;
    }
    i
}

/// `v` without the white space at either end.
pub fn trim(v: &Vec<char>) -> (r: Vec<char>)
    ensures
        r@ == trimmed(v@),
{
    let a = skip_spaces(v, 0);
    let mut b: usize = v.len();
    while b > a && is_whitespace(v[b - 1])
        invariant
            a <= b <= v.len(),
            trailing_spaces(v@, a as int, v.len() as int) == trailing_spaces(
                v@,
                a as int,
                b as int,
            ),
        decreases b,
    {
        b -= 1;
    }
    slice(v, a, b)
}

/// The first position at or after `from` that holds `c`, or the length of `v`.
pub fn find_char(v: &Vec<char>, c: char, from: usize) -> (r: usize)
    requires
        from <= v.len(),
    ensures
        r == first_index_from(v@, c, from as int),
        from <= r <= v.len(),
        r < v.len() ==> v@[r as int] == c,
{
    let mut i: usize = from;
    while i < v.len() && v[i] != c
        invariant
            from <= i <= v.len(),
            first_index_from(v@, c, from as int) == first_index_from(v@, c, i as int),
        decreases v.len() - i,
    {
        i += 1;
    }
    i
}

/// The last position that holds `c`, if there is one.
pub fn rfind_char(v: &Vec<char>, c: char) -> (r: Option<usize>)
    ensures
        match r {
            Some(k) => k == last_index_before(v@, c, v@.len() as int) && k < v.len() && v@[k as int]
                == c,
            None => last_index_before(v@, c, v@.len() as int) == -1,
        },
{
    let mut i: usize = v.len();
    while i > 0 && v[i - 1] != c
        invariant
            i <= v.len(),
            last_index_before(v@, c, v@.len() as int) == last_index_before(v@, c, i as int),
        decreases i,
    {
        i -= 1;
    }
    if i == 0 {
        None
    } else {
        Some(i - 1)
    }
}

/// The position of the last `->`, if there is one.
pub fn rfind_arrow(v: &Vec<char>) -> (r: Option<usize>)
    ensures
        match r {
            Some(k) => k == last_arrow_before(v@, v@.len() as int) && k + 2 <= v.len(),
            None => last_arrow_before(v@, v@.len() as int) == -1,
        },
{
    let mut i: usize = v.len();
    while i >= 2 && !(v[i - 2] == '-' && v[i - 1] == '>')
        invariant
            i <= v.len(),
            last_arrow_before(v@, v@.len() as int) == last_arrow_before(v@, i as int),
        decreases i,
    {
        i -= 1;
    }
    if i >= 2 {
        Some(i - 2)
    } else {
        None
    }
}

/// The nesting depth after the character at `i`, given the depth before it.
pub fn next_level(v: &Vec<char>, i: usize, level: i128) -> (r: i128)
    requires
        i < v.len(),
        i128::MIN < level < i128::MAX,
    ensures
        r == level + depth_change(v@, i as int),
{
    let c = v[i];
    if c == '<' || c == '(' {
        level + 1
    } else if c == ')' {
        level - 1
    } else if c == '>' && !(i > 0 && v[i - 1] == '-') {
        level - 1
    } else {
        level
    }
}

/// The first position that holds `c` outside every bracket, or the length of `v`.
pub fn find_top_level(v: &Vec<char>, c: char) -> (r: usize)
    ensures
        r == first_top_level(v@, c),
        r <= v.len(),
        r < v.len() ==> v@[r as int] == c,
{
    let mut i: usize = 0;
    let mut level: i128 = 0;
    while i < v.len() && !(v[i] == c && level == 0)
        invariant
            i <= v.len(),
            -(i as int) <= level <= i as int,
            first_top_level(v@, c) == first_top_level_from(v@, c, i as int, level as int),
        decreases v.len() - i,
    {
        level = next_level(v, i, level);
        i += 1;
    }
    i
}

/// Whether `p` stands in `v` at position `i`.
pub fn matches_at(v: &Vec<char>, p: &Vec<char>, i: usize) -> (b: bool)
    ensures
        b == occurs_at(v@, p@, i as int),
{
    if p.len() > v.len() || i > v.len() - p.len() {
        return false;
    }
    let mut j: usize = 0;
    while j < p.len()
        invariant
            j <= p.len(),
            i + p.len() <= v.len(),
            forall|k: int| 0 <= k < j ==> v@[i + k] == p@[k],
        decreases p.len() - j,
    {
        if v[i + j] != p[j] {
            assert(v@.subrange(i as int, i + p.len())[j as int] != p@[j as int]);
            return false;
        }
        j += 1;
    }
    assert(v@.subrange(i as int, i + p.len()) =~= p@);
    true
}

/// Whether `p` stands at the start of `v`.
pub fn starts_with(v: &Vec<char>, p: &Vec<char>) -> (b: bool)
    ensures
        b == has_prefix(v@, p@),
{
    matches_at(v, p, 0)
}

/// Whether `p` stands somewhere in `v`.
pub fn contains(v: &Vec<char>, p: &Vec<char>) -> (b: bool)
    ensures
        b == contains_seq(v@, p@),
{
    if p.len() > v.len() {
        assert forall|i: int| !occurs_at(v@, p@, i) by {}
        return false;
    }
    let last: usize = v.len() - p.len();
    let mut i: usize = 0;
    while i < last
        invariant
            last == v.len() - p.len(),
            i <= last,
            forall|k: int| 0 <= k < i ==> !occurs_at(v@, p@, k),
        decreases last - i,
    {
        if matches_at(v, p, i) {
            return true;
        }
        i += 1;
    }
    matches_at(v, p, last)
}

/// Whether `a` comes before `b`, or equals it, in lexicographic order by code point.
pub fn le_text(a: &Vec<char>, b: &Vec<char>) -> (r: bool)
    ensures
        r == text_le(a@, b@),
{
    let mut i: usize = 0;
    assert(a@.skip(0) =~= a@ && b@.skip(0) =~= b@);
    while i < a.len() && i < b.len() && a[i] == b[i]
        invariant
            i <= a.len(),
            i <= b.len(),
            text_le(a@, b@) == text_le(a@.skip(i as int), b@.skip(i as int)),
        decreases a.len() - i,
    {
        assert(a@.skip(i as int).drop_first() =~= a@.skip(i + 1));
        assert(b@.skip(i as int).drop_first() =~= b@.skip(i + 1));
        i += 1;
    }
    if i == a.len() {
        true
    } else if i == b.len() {
        false
    } else {
        (a[i] as u32) < (b[i] as u32)
    }
}

/// Whether `a` and `b` are the same text.
pub fn same_text(a: &Vec<char>, b: &Vec<char>) -> (r: bool)
    ensures
        r == (a@ == b@),
{
    if a.len() != b.len() {
        return false;
    }
    let r = matches_at(a, b, 0);
    assert(a@.subrange(0, a@.len() as int) =~= a@);
    r
}

} // verus!
