//! What cutting at commas yields: one segment for each comma that stands
//! outside every bracket, and the whole text where there is none.

use crate::parse::{split_arguments_spec, split_from};
use crate::text::{depth_change, trimmed};
use vstd::prelude::*;

verus! {

/// The nesting depth on arrival at position `i` of `s`.
pub open spec fn depth_at(s: Seq<char>, i: int) -> int
    decreases i,
{
    if i <= 0 {
        0
    } else {
        depth_at(s, i - 1) + depth_change(s, i - 1)
    }
}

/// Whether position `i` of `s` holds a comma outside every bracket.
pub open spec fn is_separator(s: Seq<char>, i: int) -> bool {
    0 <= i < s.len() && s[i] == ',' && depth_at(s, i) == 0
}

/// How many commas outside every bracket stand before position `k` of `s`.
pub open spec fn separators(s: Seq<char>, k: int) -> nat
    decreases k,
{
    if k <= 0 {
        0
    } else {
        separators(s, k - 1) + if is_separator(s, k - 1) {
            1nat
        } else {
            0nat
        }
    }
}

/// The scan from `i` yields one segment for each separator from `i` on.
pub proof fn lemma_split_from_len(t: Seq<char>, i: int, start: int)
    requires
        0 <= i <= t.len(),
    ensures
        separators(t, i) + split_from(t, i, start, depth_at(t, i)).len() == separators(
            t,
            t.len() as int,
        ),
    decreases t.len() - i,
{
    if i < t.len() {
        if is_separator(t, i) {
            lemma_split_from_len(t, i + 1, i + 1);
        } else {
            lemma_split_from_len(t, i + 1, start);
        }
    }
}

/// A comma at the end changes neither depth nor separators before it.
pub proof fn lemma_before_the_end(s: Seq<char>, k: int)
    requires
        0 <= k <= s.len(),
    ensures
        depth_at(s.push(','), k) == depth_at(s, k),
        separators(s.push(','), k) == separators(s, k),
    decreases k,
{
    if k > 0 {
        lemma_before_the_end(s, k - 1);
        assert(depth_change(s.push(','), k - 1) == depth_change(s, k - 1));
    }
}

/// While no separator is passed the scan stays in one segment.
pub proof fn lemma_split_from_skips(t: Seq<char>, i: int, j: int, start: int)
    requires
        0 <= i <= j <= t.len(),
        forall|k: int| i <= k < j ==> !is_separator(t, k),
    ensures
        split_from(t, i, start, depth_at(t, i)) == split_from(t, j, start, depth_at(t, j)),
    decreases j - i,
{
    if i < j {
        assert(!is_separator(t, i));
        lemma_split_from_skips(t, i + 1, j, start);
    }
}

/// Cutting a text yields as many segments as it has commas outside every
/// bracket, and one more if its brackets are closed at its end.
pub proof fn one_segment_for_each_separator(s: Seq<char>)
    ensures
        split_arguments_spec(s).len() == separators(s, s.len() as int) + if depth_at(
            s,
            s.len() as int,
        ) == 0 {
            1nat
        } else {
            0nat
        },
{
    let t = s.push(',');
    lemma_split_from_len(t, 0, 0);
    lemma_before_the_end(s, s.len() as int);
}

/// A text whose commas all stand inside brackets, and whose brackets are
/// closed at its end, is a single segment: the text itself, trimmed.
pub proof fn commas_inside_brackets_do_not_separate(s: Seq<char>)
    requires
        forall|k: int| 0 <= k < s.len() ==> !is_separator(s, k),
        depth_at(s, s.len() as int) == 0,
    ensures
        split_arguments_spec(s) == seq![trimmed(s)],
{
    let t = s.push(',');
    let n = s.len() as int;
    assert forall|k: int| 0 <= k < n implies !is_separator(t, k) by {
        lemma_before_the_end(s, k);
        assert(!is_separator(s, k));
    }
    lemma_split_from_skips(t, 0, n, 0);
    lemma_before_the_end(s, n);
    assert(t.subrange(0, n) =~= s);
    assert(split_from(t, n + 1, n + 1, 0) =~= Seq::<Seq<char>>::empty());
    assert(split_from(t, n, 0, 0) =~= seq![trimmed(s)]);
}

} // verus!
