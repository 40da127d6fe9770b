//! Canonical names for type variables.
//!
//! The variables of a signature are renamed to `A`, `B`, `C`, ... so that two
//! signatures that differ only in how their variables are spelled become
//! equal. The variable that occurs most often becomes `A`; of two variables
//! that occur equally often, the one that occurs first comes first.

use crate::types::{
    arg_view, args_view, clone_constraints, lemma_args_view, letter, letters,
    strings_view, traverse_all, traverse_constrained, var_names, var_names_of, Arg, ArgView, Error,
    LETTERS,
};
use vstd::prelude::*;
use vstd::set_lib::{lemma_int_range, lemma_map_size, lemma_subset_equality, set_int_range};

verus! {

/// How often `x` occurs among the first `k` names of `occ`.
pub open spec fn count_in(occ: Seq<Seq<char>>, x: Seq<char>, k: int) -> nat
    decreases k,
{
    if k <= 0 {
        0
    } else {
        count_in(occ, x, k - 1) + if occ[k - 1] == x {
            1nat
        } else {
            0nat
        }
    }
}

/// How often `x` occurs in `occ`.
pub open spec fn occurrences(occ: Seq<Seq<char>>, x: Seq<char>) -> nat {
    count_in(occ, x, occ.len() as int)
}

/// The first position at or after `i` where `x` occurs in `occ`, or the
/// length of `occ`.
pub open spec fn first_seen_from(occ: Seq<Seq<char>>, x: Seq<char>, i: int) -> int
    decreases occ.len() - i,
{
    if 0 <= i < occ.len() && occ[i] != x {
        first_seen_from(occ, x, i + 1)
    } else {
        i
    }
}

/// The position of the first occurrence of `x` in `occ`, or the length of `occ`.
pub open spec fn first_seen(occ: Seq<Seq<char>>, x: Seq<char>) -> int {
    first_seen_from(occ, x, 0)
}

/// Whether position `i` holds the first occurrence of a name.
pub open spec fn is_first(occ: Seq<Seq<char>>, i: int) -> bool {
    0 <= i < occ.len() && first_seen(occ, occ[i]) == i
}

/// The canonical order: `y` comes before `x` if it occurs more often, or as
/// often and first.
pub open spec fn precedes(occ: Seq<Seq<char>>, y: Seq<char>, x: Seq<char>) -> bool {
    occurrences(occ, y) > occurrences(occ, x) || (occurrences(occ, y) == occurrences(occ, x)
        && first_seen(occ, y) < first_seen(occ, x))
}

/// How many of the names that first occur before position `k` come before `x`.
pub open spec fn rank_upto(occ: Seq<Seq<char>>, x: Seq<char>, k: int) -> nat
    decreases k,
{
    if k <= 0 {
        0
    } else {
        rank_upto(occ, x, k - 1) + if is_first(occ, k - 1) && precedes(occ, occ[k - 1], x) {
            1nat
        } else {
            0nat
        }
    }
}

/// The place of `x` in the canonical order: how many names come before it.
pub open spec fn rank(occ: Seq<Seq<char>>, x: Seq<char>) -> nat {
    rank_upto(occ, x, occ.len() as int)
}

/// How many different names occur before position `k`.
pub open spec fn distinct_upto(occ: Seq<Seq<char>>, k: int) -> nat
    decreases k,
{
    if k <= 0 {
        0
    } else {
        distinct_upto(occ, k - 1) + if is_first(occ, k - 1) {
            1nat
        } else {
            0nat
        }
    }
}

/// How many different names occur in `occ`.
pub open spec fn distinct_count(occ: Seq<Seq<char>>) -> nat {
    distinct_upto(occ, occ.len() as int)
}

/// The canonical renaming for the occurrences `occ`: a name that occurs gets
/// the letter of its rank, any other name is kept.
pub open spec fn canonical_renaming(occ: Seq<Seq<char>>) -> spec_fn(Seq<char>) -> Seq<char> {
    |x: Seq<char>|
        if occ.contains(x) {
            letter(rank(occ, x))
        } else {
            x
        }
}

/// `a` with each type variable `x` named `f(x)`.
pub open spec fn rename_vars(a: ArgView, f: spec_fn(Seq<char>) -> Seq<char>) -> ArgView
    decreases a,
{
    match a {
        ArgView::Basic(_) => a,
        ArgView::Parametric(b, ps) => ArgView::Parametric(
            Box::new(rename_vars(*b, f)),
            rename_all(ps, f),
        ),
        ArgView::Tuple(es) => ArgView::Tuple(rename_all(es, f)),
        ArgView::Vec(e) => ArgView::Vec(Box::new(rename_vars(*e, f))),
        ArgView::Constrained(n, cs) => ArgView::Constrained(f(n), cs),
        ArgView::Function(xs, r) => ArgView::Function(
            rename_all(xs, f),
            Box::new(rename_vars(*r, f)),
        ),
    }
}

/// Each expression of `s` with each type variable `x` named `f(x)`.
pub open spec fn rename_all(s: Seq<ArgView>, f: spec_fn(Seq<char>) -> Seq<char>) -> Seq<ArgView>
    decreases s,
{
    if s.len() == 0 {
        Seq::empty()
    } else {
        rename_all(s.drop_last(), f).push(rename_vars(s.last(), f))
    }
}

/// The names of the type variables of a signature, in the order in which a
/// reader meets them: the arguments from left to right, then the return type.
pub open spec fn signature_vars(args: Seq<ArgView>, ret: ArgView) -> Seq<Seq<char>> {
    var_names_of(args) + var_names(ret)
}

/// The canonical form of a signature: its arguments and its return type under
/// the canonical renaming, and the number of its type variables.
pub open spec fn canonical_form(args: Seq<ArgView>, ret: ArgView) -> (Seq<ArgView>, ArgView, nat) {
    let occ = signature_vars(args, ret);
    (
        rename_all(args, canonical_renaming(occ)),
        rename_vars(ret, canonical_renaming(occ)),
        distinct_count(occ),
    )
}

/// `rename_all` works element by element.
pub proof fn lemma_rename_all(s: Seq<ArgView>, f: spec_fn(Seq<char>) -> Seq<char>)
    ensures
        rename_all(s, f).len() == s.len(),
        forall|i: int| 0 <= i < s.len() ==> #[trigger] rename_all(s, f)[i] == rename_vars(s[i], f),
    decreases s.len(),
{
    if s.len() > 0 {
        lemma_rename_all(s.drop_last(), f);
    }
}

pub proof fn lemma_first_seen_from(occ: Seq<Seq<char>>, x: Seq<char>, i: int)
    requires
        0 <= i <= occ.len(),
    ensures
        i <= first_seen_from(occ, x, i) <= occ.len(),
        first_seen_from(occ, x, i) < occ.len() ==> occ[first_seen_from(occ, x, i)] == x,
        forall|j: int| i <= j < first_seen_from(occ, x, i) ==> occ[j] != x,
    decreases occ.len() - i,
{
    if i < occ.len() && occ[i] != x {
        lemma_first_seen_from(occ, x, i + 1);
    }
}

/// A name occurs exactly if its first occurrence has a position; no earlier
/// position holds it.
pub proof fn lemma_first_seen(occ: Seq<Seq<char>>, x: Seq<char>)
    ensures
        0 <= first_seen(occ, x) <= occ.len(),
        occ.contains(x) <==> first_seen(occ, x) < occ.len(),
        first_seen(occ, x) < occ.len() ==> occ[first_seen(occ, x)] == x,
        forall|j: int| 0 <= j < first_seen(occ, x) ==> occ[j] != x,
{
    lemma_first_seen_from(occ, x, 0);
    if occ.contains(x) {
        let j = choose|j: int| 0 <= j < occ.len() && occ[j] == x;
        if first_seen(occ, x) >= occ.len() {
            assert(occ[j] != x);
        }
    }
}

/// No more names come before `x` than there are names, and fewer if `x` has
/// occurred itself.
pub proof fn lemma_rank_upto_bound(occ: Seq<Seq<char>>, x: Seq<char>, k: int)
    requires
        0 <= k <= occ.len(),
    ensures
        rank_upto(occ, x, k) <= distinct_upto(occ, k),
        first_seen(occ, x) < k ==> rank_upto(occ, x, k) < distinct_upto(occ, k),
    decreases k,
{
    lemma_first_seen(occ, x);
    if k > 0 {
        lemma_rank_upto_bound(occ, x, k - 1);
        if first_seen(occ, x) == k - 1 {
            assert(is_first(occ, k - 1));
            assert(!precedes(occ, x, x));
        }
    }
}

/// The rank of a name that occurs is less than the number of names.
pub proof fn lemma_rank_bound(occ: Seq<Seq<char>>, x: Seq<char>)
    requires
        occ.contains(x),
    ensures
        rank(occ, x) < distinct_count(occ),
{
    lemma_first_seen(occ, x);
    lemma_rank_upto_bound(occ, x, occ.len() as int);
}

/// How often `x` occurs in `names`.
pub fn count_name(names: &Vec<String>, x: &String) -> (n: usize)
    ensures
        n == occurrences(strings_view(names@), x@),
{
    let ghost occ = strings_view(names@);
    let mut n: usize = 0;
    let mut i: usize = 0;
    while i < names.len()
        invariant
            i <= names.len(),
            occ == strings_view(names@),
            n == count_in(occ, x@, i as int),
            n <= i,
        decreases names.len() - i,
    {
        if names[i] == *x {
            n += 1;
        }
        i += 1;
    }
    n
}

/// The position of the first occurrence of `x` in `names`, or their number.
pub fn first_position(names: &Vec<String>, x: &String) -> (p: usize)
    ensures
        p == first_seen(strings_view(names@), x@),
        p <= names.len(),
{
    let ghost occ = strings_view(names@);
    let mut i: usize = 0;
    while i < names.len() && names[i] != *x
        invariant
            i <= names.len(),
            occ == strings_view(names@),
            first_seen(occ, x@) == first_seen_from(occ, x@, i as int),
        decreases names.len() - i,
    {
        i += 1;
    }
    i
}

/// The rank of the name at position `i`, from how often each name occurs
/// (`counts`) and where each first occurs (`firsts`).
fn rank_at(names: &Vec<String>, counts: &Vec<usize>, firsts: &Vec<usize>, i: usize) -> (r: usize)
    requires
        i < names.len(),
        counts.len() == names.len(),
        firsts.len() == names.len(),
        forall|j: int|
            0 <= j < names.len() ==> counts@[j] == occurrences(
                strings_view(names@),
                #[trigger] strings_view(names@)[j],
            ),
        forall|j: int|
            0 <= j < names.len() ==> firsts@[j] == first_seen(
                strings_view(names@),
                #[trigger] strings_view(names@)[j],
            ),
    ensures
        r == rank(strings_view(names@), names@[i as int]@),
        r <= names.len(),
{
    let ghost occ = strings_view(names@);
    let mut r: usize = 0;
    let mut j: usize = 0;
    while j < names.len()
        invariant
            j <= names.len(),
            i < names.len(),
            occ == strings_view(names@),
            counts.len() == names.len(),
            firsts.len() == names.len(),
            forall|j: int| 0 <= j < names.len() ==> counts@[j] == occurrences(occ, #[trigger] occ[j]),
            forall|j: int| 0 <= j < names.len() ==> firsts@[j] == first_seen(occ, #[trigger] occ[j]),
            r == rank_upto(occ, occ[i as int], j as int),
            r <= j,
        decreases names.len() - j,
    {
        assert(counts@[j as int] == occurrences(occ, occ[j as int]));
        assert(firsts@[j as int] == first_seen(occ, occ[j as int]));
        assert(counts@[i as int] == occurrences(occ, occ[i as int]));
        assert(firsts@[i as int] == first_seen(occ, occ[i as int]));
        if firsts[j] == j && (counts[j] > counts[i] || (counts[j] == counts[i] && firsts[j]
            < firsts[i])) {
            r += 1;
        }
        j += 1;
    }
    r
}

/// `a` under the renaming that `names` and `canon` hold: a variable whose
/// name is in `names` gets the name at the same position of `canon`.
fn rename_arg(a: &Arg, names: &Vec<String>, canon: &Vec<String>) -> (r: Arg)
    requires
        canon.len() == names.len(),
        forall|j: int|
            0 <= j < names.len() ==> canon@[j]@ == letter(
                rank(strings_view(names@), #[trigger] strings_view(names@)[j]),
            ),
    ensures
        r@ == rename_vars(a@, canonical_renaming(strings_view(names@))),
    decreases a, 0nat,
{
    let ghost occ = strings_view(names@);
    match a {
        Arg::Basic(n) => Arg::Basic(n.clone()),
        Arg::Parametric(b, ps) => Arg::Parametric(
            Box::new(rename_arg(b, names, canon)),
            rename_args(ps, names, canon),
        ),
        Arg::Tuple(es) => Arg::Tuple(rename_args(es, names, canon)),
        Arg::Vec(e) => Arg::Vec(Box::new(rename_arg(e, names, canon))),
        Arg::Constrained(n, cs) => {
            let p = first_position(names, n);
            proof {
                lemma_first_seen(occ, n@);
            }
            if p < names.len() {
                assert(occ[p as int] == n@);
                Arg::Constrained(canon[p].clone(), clone_constraints(cs))
            } else {
                Arg::Constrained(n.clone(), clone_constraints(cs))
            }
        },
        Arg::Function(xs, t) => Arg::Function(
            rename_args(xs, names, canon),
            Box::new(rename_arg(t, names, canon)),
        ),
    }
}

/// Each expression of `v` under the renaming that `names` and `canon` hold.
fn rename_args(v: &Vec<Arg>, names: &Vec<String>, canon: &Vec<String>) -> (r: Vec<Arg>)
    requires
        canon.len() == names.len(),
        forall|j: int|
            0 <= j < names.len() ==> canon@[j]@ == letter(
                rank(strings_view(names@), #[trigger] strings_view(names@)[j]),
            ),
    ensures
        args_view(r@) == rename_all(args_view(v@), canonical_renaming(strings_view(names@))),
    decreases v, 1nat,
{
    let ghost f = canonical_renaming(strings_view(names@));
    let mut r: Vec<Arg> = Vec::new();
    let mut i: usize = 0;
    while i < v.len()
        invariant
            i <= v.len(),
            r.len() == i,
            canon.len() == names.len(),
            f == canonical_renaming(strings_view(names@)),
            forall|j: int|
                0 <= j < names.len() ==> canon@[j]@ == letter(
                    rank(strings_view(names@), #[trigger] strings_view(names@)[j]),
                ),
            forall|k: int| 0 <= k < i ==> arg_view(r@[k]) == rename_vars(arg_view(v@[k]), f),
        decreases v.len() - i,
    {
        r.push(rename_arg(&v[i], names, canon));
        i += 1;
    }
    proof {
        lemma_args_view(r@);
        lemma_args_view(v@);
        lemma_rename_all(args_view(v@), f);
        assert(args_view(r@) =~= rename_all(args_view(v@), f));
    }
    r
}

/// Renames the type variables of a signature to `A`, `B`, `C`, ... in
/// canonical order, and counts them. Fails where there are more variables
/// than letters.
pub fn canonicalize_args(args: Vec<Arg>, ret: Arg) -> (r: Result<(Vec<Arg>, Arg, usize), Error>)
    ensures
        match r {
            Ok((a, t, n)) => {
                &&& distinct_count(signature_vars(args_view(args@), ret@)) <= LETTERS
                &&& (args_view(a@), t@, n as nat) == canonical_form(args_view(args@), ret@)
            },
            Err(e) => {
                &&& distinct_count(signature_vars(args_view(args@), ret@)) > LETTERS
                &&& e == Error::TooManyTypeVariables
            },
        },
{
    let mut names: Vec<String> = Vec::new();
    traverse_all(&args, &mut names);
    traverse_constrained(&ret, &mut names);
    let ghost occ = strings_view(names@);
    assert(occ =~= signature_vars(args_view(args@), ret@)) by {
        assert(strings_view(Seq::<String>::empty()) =~= Seq::<Seq<char>>::empty());
    }
    let mut counts: Vec<usize> = Vec::new();
    let mut firsts: Vec<usize> = Vec::new();
    let mut distinct: usize = 0;
    let mut i: usize = 0;
    while i < names.len()
        invariant
            i <= names.len(),
            occ == strings_view(names@),
            counts.len() == i,
            firsts.len() == i,
            forall|j: int| 0 <= j < i ==> counts@[j] == occurrences(occ, #[trigger] occ[j]),
            forall|j: int| 0 <= j < i ==> firsts@[j] == first_seen(occ, #[trigger] occ[j]),
            distinct == distinct_upto(occ, i as int),
            distinct <= i,
        decreases names.len() - i,
    {
        let c = count_name(&names, &names[i]);
        let p = first_position(&names, &names[i]);
        counts.push(c);
        firsts.push(p);
        if p == i {
            distinct += 1;
        }
        i += 1;
    }
    if distinct > LETTERS {
        return Err(Error::TooManyTypeVariables);
    }
    let mut canon: Vec<String> = Vec::new();
    let mut k: usize = 0;
    while k < names.len()
        invariant
            k <= names.len(),
            occ == strings_view(names@),
            counts.len() == names.len(),
            firsts.len() == names.len(),
            forall|j: int| 0 <= j < names.len() ==> counts@[j] == occurrences(occ, #[trigger] occ[j]),
            forall|j: int| 0 <= j < names.len() ==> firsts@[j] == first_seen(occ, #[trigger] occ[j]),
            distinct == distinct_count(occ),
            distinct <= LETTERS,
            canon.len() == k,
            forall|j: int| 0 <= j < k ==> canon@[j]@ == letter(rank(occ, #[trigger] occ[j])),
        decreases names.len() - k,
    {
        let r = rank_at(&names, &counts, &firsts, k);
        proof {
            assert(occ.contains(occ[k as int]));
            lemma_rank_bound(occ, occ[k as int]);
        }
        match letters(r) {
            Ok(s) => {
                canon.push(s);
            },
            Err(e) => {
                return Err(e);
            },
        }
        k += 1;
    }
    let new_args = rename_args(&args, &names, &canon);
    let new_ret = rename_arg(&ret, &names, &canon);
    Ok((new_args, new_ret, distinct))
}

/// The names `s`, each `x` of them replaced by `f(x)`.
pub open spec fn renamed_names(s: Seq<Seq<char>>, f: spec_fn(Seq<char>) -> Seq<char>) -> Seq<
    Seq<char>,
> {
    Seq::new(s.len(), |i: int| f(s[i]))
}

/// Whether `f` gives different names to different names of `occ`.
pub open spec fn injective_on(f: spec_fn(Seq<char>) -> Seq<char>, occ: Seq<Seq<char>>) -> bool {
    forall|i: int, j: int|
        0 <= i < occ.len() && 0 <= j < occ.len() && f(#[trigger] occ[i]) == f(#[trigger] occ[j])
            ==> occ[i] == occ[j]
}

/// The variables of a renamed expression are the renamed variables, in the
/// same order.
pub proof fn lemma_var_names_renamed(a: ArgView, f: spec_fn(Seq<char>) -> Seq<char>)
    ensures
        var_names(rename_vars(a, f)) == renamed_names(var_names(a), f),
    decreases a,
{
    match a {
        ArgView::Basic(_) => {
            assert(var_names(rename_vars(a, f)) =~= renamed_names(var_names(a), f));
        },
        ArgView::Parametric(b, ps) => {
            lemma_var_names_renamed(*b, f);
            lemma_var_names_of_renamed(ps, f);
            assert(var_names(rename_vars(a, f)) =~= renamed_names(var_names(a), f));
        },
        ArgView::Tuple(es) => {
            lemma_var_names_of_renamed(es, f);
        },
        ArgView::Vec(e) => {
            lemma_var_names_renamed(*e, f);
        },
        ArgView::Constrained(n, cs) => {
            assert(var_names(rename_vars(a, f)) =~= renamed_names(var_names(a), f));
        },
        ArgView::Function(xs, r) => {
            lemma_var_names_of_renamed(xs, f);
            lemma_var_names_renamed(*r, f);
            assert(var_names(rename_vars(a, f)) =~= renamed_names(var_names(a), f));
        },
    }
}

/// The variables of renamed expressions are the renamed variables.
pub proof fn lemma_var_names_of_renamed(s: Seq<ArgView>, f: spec_fn(Seq<char>) -> Seq<char>)
    ensures
        var_names_of(rename_all(s, f)) == renamed_names(var_names_of(s), f),
    decreases s,
{
    if s.len() == 0 {
        assert(var_names_of(rename_all(s, f)) =~= renamed_names(var_names_of(s), f));
    } else {
        lemma_var_names_of_renamed(s.drop_last(), f);
        lemma_var_names_renamed(s.last(), f);
        let r = rename_all(s, f);
        assert(r.drop_last() =~= rename_all(s.drop_last(), f));
        assert(r.last() == rename_vars(s.last(), f));
        assert(var_names_of(r) =~= renamed_names(var_names_of(s), f));
    }
}

/// Every variable of an expression of `s` is a variable of `s`.
pub proof fn lemma_var_names_of_holds(s: Seq<ArgView>, i: int, x: Seq<char>)
    requires
        0 <= i < s.len(),
        var_names(s[i]).contains(x),
    ensures
        var_names_of(s).contains(x),
    decreases s.len(),
{
    let k = choose|k: int| 0 <= k < var_names(s[i]).len() && var_names(s[i])[k] == x;
    if i == s.len() - 1 {
        let prefix = var_names_of(s.drop_last());
        assert(var_names_of(s)[prefix.len() + k] == x);
    } else {
        lemma_var_names_of_holds(s.drop_last(), i, x);
        let prefix = var_names_of(s.drop_last());
        let j = choose|j: int| 0 <= j < prefix.len() && prefix[j] == x;
        assert(var_names_of(s)[j] == x);
    }
}

/// A name of the first of two lists is a name of both together; so is one of
/// the second.
pub proof fn lemma_concat_holds(a: Seq<Seq<char>>, b: Seq<Seq<char>>, x: Seq<char>)
    requires
        a.contains(x) || b.contains(x),
    ensures
        (a + b).contains(x),
{
    if a.contains(x) {
        let k = choose|k: int| 0 <= k < a.len() && a[k] == x;
        assert((a + b)[k] == x);
    } else {
        let k = choose|k: int| 0 <= k < b.len() && b[k] == x;
        assert((a + b)[a.len() + k] == x);
    }
}

/// Two renamings in a row are one renaming, as far as the variables of the
/// expression go.
pub proof fn lemma_rename_twice(
    a: ArgView,
    f: spec_fn(Seq<char>) -> Seq<char>,
    g: spec_fn(Seq<char>) -> Seq<char>,
    h: spec_fn(Seq<char>) -> Seq<char>,
)
    requires
        forall|x: Seq<char>| #[trigger] var_names(a).contains(x) ==> g(f(x)) == h(x),
    ensures
        rename_vars(rename_vars(a, f), g) == rename_vars(a, h),
    decreases a,
{
    match a {
        ArgView::Basic(_) => {},
        ArgView::Parametric(b, ps) => {
            assert(var_names(a) == var_names(*b) + var_names_of(ps));
            assert forall|x: Seq<char>| #[trigger] var_names(*b).contains(x) implies g(f(x)) == h(
                x,
            ) by {
                lemma_concat_holds(var_names(*b), var_names_of(ps), x);
            }
            assert forall|x: Seq<char>| #[trigger] var_names_of(ps).contains(x) implies g(f(x))
                == h(x) by {
                lemma_concat_holds(var_names(*b), var_names_of(ps), x);
            }
            lemma_rename_twice(*b, f, g, h);
            lemma_rename_all_twice(ps, f, g, h);
        },
        ArgView::Tuple(es) => {
            assert(var_names(a) == var_names_of(es));
            lemma_rename_all_twice(es, f, g, h);
        },
        ArgView::Vec(e) => {
            assert(var_names(a) == var_names(*e));
            lemma_rename_twice(*e, f, g, h);
        },
        ArgView::Constrained(n, cs) => {
            assert(var_names(a)[0] == n);
            assert(var_names(a).contains(n));
        },
        ArgView::Function(xs, r) => {
            assert(var_names(a) == var_names_of(xs) + var_names(*r));
            assert forall|x: Seq<char>| #[trigger] var_names(*r).contains(x) implies g(f(x)) == h(
                x,
            ) by {
                lemma_concat_holds(var_names_of(xs), var_names(*r), x);
            }
            assert forall|x: Seq<char>| #[trigger] var_names_of(xs).contains(x) implies g(f(x))
                == h(x) by {
                lemma_concat_holds(var_names_of(xs), var_names(*r), x);
            }
            lemma_rename_all_twice(xs, f, g, h);
            lemma_rename_twice(*r, f, g, h);
        },
    }
}

/// Two renamings in a row are one renaming, on a list of expressions.
pub proof fn lemma_rename_all_twice(
    s: Seq<ArgView>,
    f: spec_fn(Seq<char>) -> Seq<char>,
    g: spec_fn(Seq<char>) -> Seq<char>,
    h: spec_fn(Seq<char>) -> Seq<char>,
)
    requires
        forall|x: Seq<char>| #[trigger] var_names_of(s).contains(x) ==> g(f(x)) == h(x),
    ensures
        rename_all(rename_all(s, f), g) == rename_all(s, h),
    decreases s,
{
    lemma_rename_all(s, f);
    lemma_rename_all(rename_all(s, f), g);
    lemma_rename_all(s, h);
    assert forall|i: int| 0 <= i < s.len() implies rename_all(rename_all(s, f), g)[i]
        == rename_all(s, h)[i] by {
        assert forall|x: Seq<char>| #[trigger] var_names(s[i]).contains(x) implies g(f(x)) == h(
            x,
        ) by {
            lemma_var_names_of_holds(s, i, x);
        }
        lemma_rename_twice(s[i], f, g, h);
    }
    assert(rename_all(rename_all(s, f), g) =~= rename_all(s, h));
}

/// A renaming that keeps different names different keeps how often a name
/// occurs.
pub proof fn lemma_count_renamed(
    occ: Seq<Seq<char>>,
    f: spec_fn(Seq<char>) -> Seq<char>,
    i: int,
    k: int,
)
    requires
        injective_on(f, occ),
        0 <= i < occ.len(),
        0 <= k <= occ.len(),
    ensures
        count_in(renamed_names(occ, f), f(occ[i]), k) == count_in(occ, occ[i], k),
    decreases k,
{
    if k > 0 {
        lemma_count_renamed(occ, f, i, k - 1);
        assert(renamed_names(occ, f)[k - 1] == f(occ[k - 1]));
        assert(f(occ[k - 1]) == f(occ[i]) ==> occ[k - 1] == occ[i]);
    }
}

/// A renaming that keeps different names different keeps where a name first
/// occurs.
pub proof fn lemma_first_seen_renamed(
    occ: Seq<Seq<char>>,
    f: spec_fn(Seq<char>) -> Seq<char>,
    i: int,
    j: int,
)
    requires
        injective_on(f, occ),
        0 <= i < occ.len(),
        0 <= j <= occ.len(),
    ensures
        first_seen_from(renamed_names(occ, f), f(occ[i]), j) == first_seen_from(occ, occ[i], j),
    decreases occ.len() - j,
{
    if j < occ.len() {
        assert(renamed_names(occ, f)[j] == f(occ[j]));
        assert(f(occ[j]) == f(occ[i]) ==> occ[j] == occ[i]);
        if occ[j] != occ[i] {
            lemma_first_seen_renamed(occ, f, i, j + 1);
        }
    }
}

/// A renaming that keeps different names different keeps the rank of every
/// name and the number of names.
pub proof fn lemma_rank_renamed(
    occ: Seq<Seq<char>>,
    f: spec_fn(Seq<char>) -> Seq<char>,
    i: int,
    k: int,
)
    requires
        injective_on(f, occ),
        0 <= i < occ.len(),
        0 <= k <= occ.len(),
    ensures
        rank_upto(renamed_names(occ, f), f(occ[i]), k) == rank_upto(occ, occ[i], k),
        distinct_upto(renamed_names(occ, f), k) == distinct_upto(occ, k),
    decreases k,
{
    if k > 0 {
        let occ2 = renamed_names(occ, f);
        lemma_rank_renamed(occ, f, i, k - 1);
        assert(occ2[k - 1] == f(occ[k - 1]));
        lemma_first_seen_renamed(occ, f, k - 1, 0);
        lemma_first_seen_renamed(occ, f, i, 0);
        lemma_count_renamed(occ, f, k - 1, occ.len() as int);
        lemma_count_renamed(occ, f, i, occ.len() as int);
        assert(is_first(occ2, k - 1) == is_first(occ, k - 1));
        assert(precedes(occ2, occ2[k - 1], f(occ[i])) == precedes(occ, occ[k - 1], occ[i]));
    }
}

/// The canonical form does not depend on how the type variables are spelled:
/// renaming them, different names to different names, leaves it as it is.
pub proof fn canonical_form_ignores_spelling(
    args: Seq<ArgView>,
    ret: ArgView,
    f: spec_fn(Seq<char>) -> Seq<char>,
)
    requires
        injective_on(f, signature_vars(args, ret)),
    ensures
        canonical_form(rename_all(args, f), rename_vars(ret, f)) == canonical_form(args, ret),
{
    let occ = signature_vars(args, ret);
    let args2 = rename_all(args, f);
    let ret2 = rename_vars(ret, f);
    let occ2 = signature_vars(args2, ret2);
    lemma_var_names_of_renamed(args, f);
    lemma_var_names_renamed(ret, f);
    assert(occ2 =~= renamed_names(occ, f));
    let g = canonical_renaming(occ2);
    let h = canonical_renaming(occ);
    assert forall|x: Seq<char>| #[trigger] occ.contains(x) implies g(f(x)) == h(x) by {
        let i = choose|i: int| 0 <= i < occ.len() && occ[i] == x;
        assert(occ2[i] == f(x));
        assert(occ2.contains(f(x)));
        lemma_rank_renamed(occ, f, i, occ.len() as int);
    }
    assert forall|x: Seq<char>| #[trigger] var_names_of(args).contains(x) implies g(f(x)) == h(
        x,
    ) by {
        lemma_concat_holds(var_names_of(args), var_names(ret), x);
    }
    assert forall|x: Seq<char>| #[trigger] var_names(ret).contains(x) implies g(f(x)) == h(x) by {
        lemma_concat_holds(var_names_of(args), var_names(ret), x);
    }
    lemma_rename_all_twice(args, f, g, h);
    lemma_rename_twice(ret, f, g, h);
    if occ.len() > 0 {
        lemma_rank_renamed(occ, f, 0, occ.len() as int);
    }
}

/// The canonical order is transitive.
pub proof fn lemma_precedes_transitive(
    occ: Seq<Seq<char>>,
    z: Seq<char>,
    y: Seq<char>,
    x: Seq<char>,
)
    requires
        precedes(occ, z, y),
        precedes(occ, y, x),
    ensures
        precedes(occ, z, x),
{
}

pub proof fn lemma_rank_upto_ordered(occ: Seq<Seq<char>>, y: Seq<char>, x: Seq<char>, k: int)
    requires
        occ.contains(y),
        precedes(occ, y, x),
        0 <= k <= occ.len(),
    ensures
        rank_upto(occ, y, k) <= rank_upto(occ, x, k),
        first_seen(occ, y) < k ==> rank_upto(occ, y, k) < rank_upto(occ, x, k),
    decreases k,
{
    lemma_first_seen(occ, y);
    if k > 0 {
        lemma_rank_upto_ordered(occ, y, x, k - 1);
        if precedes(occ, occ[k - 1], y) {
            lemma_precedes_transitive(occ, occ[k - 1], y, x);
        }
        if first_seen(occ, y) == k - 1 {
            assert(is_first(occ, k - 1));
            assert(!precedes(occ, y, y));
        }
    }
}

/// A name that comes before another in the canonical order has the smaller
/// rank. In particular, of two names that occur equally often, the one that
/// occurs first gets the earlier letter.
pub proof fn earlier_name_ranks_first(occ: Seq<Seq<char>>, y: Seq<char>, x: Seq<char>)
    requires
        occ.contains(y),
        precedes(occ, y, x),
    ensures
        rank(occ, y) < rank(occ, x),
{
    lemma_first_seen(occ, y);
    lemma_rank_upto_ordered(occ, y, x, occ.len() as int);
}

/// Different names have different ranks: the canonical renaming never merges
/// two type variables.
pub proof fn different_names_rank_differently(occ: Seq<Seq<char>>, x: Seq<char>, y: Seq<char>)
    requires
        occ.contains(x),
        occ.contains(y),
        x != y,
    ensures
        rank(occ, x) != rank(occ, y),
{
    lemma_first_seen(occ, x);
    lemma_first_seen(occ, y);
    if precedes(occ, x, y) {
        earlier_name_ranks_first(occ, x, y);
    } else {
        assert(precedes(occ, y, x));
        earlier_name_ranks_first(occ, y, x);
    }
}

/// The positions before `k` that hold the first occurrence of a name.
pub open spec fn first_positions(occ: Seq<Seq<char>>, k: int) -> Set<int> {
    Set::new(|i: int| 0 <= i < k && is_first(occ, i))
}

/// There are as many first occurrences before `k` as different names.
pub proof fn lemma_first_positions(occ: Seq<Seq<char>>, k: int)
    requires
        0 <= k <= occ.len(),
    ensures
        first_positions(occ, k).finite(),
        first_positions(occ, k).len() == distinct_upto(occ, k),
    decreases k,
{
    if k == 0 {
        assert(first_positions(occ, k) =~= Set::<int>::empty());
    } else {
        lemma_first_positions(occ, k - 1);
        if is_first(occ, k - 1) {
            assert(first_positions(occ, k) =~= first_positions(occ, k - 1).insert(k - 1));
        } else {
            assert(first_positions(occ, k) =~= first_positions(occ, k - 1));
        }
    }
}

/// Every rank below the number of names is taken: the canonical renaming
/// uses the first letters of the alphabet and leaves none of them out.
pub proof fn every_rank_is_taken(occ: Seq<Seq<char>>, r: nat) -> (x: Seq<char>)
    requires
        r < distinct_count(occ),
    ensures
        occ.contains(x),
        rank(occ, x) == r,
{
    let n = occ.len() as int;
    let count = distinct_count(occ) as int;
    let firsts = first_positions(occ, n);
    let place = |i: int| rank(occ, occ[i]) as int;
    let taken = firsts.map(place);
    lemma_first_positions(occ, n);
    assert(vstd::relations::injective_on(place, firsts)) by {
        assert forall|i: int, j: int|
            firsts.contains(i) && firsts.contains(j) && #[trigger] place(i) == #[trigger] place(
                j,
            ) implies i == j by {
            if occ[i] != occ[j] {
                different_names_rank_differently(occ, occ[i], occ[j]);
            }
        }
    }
    lemma_map_size(firsts, taken, place);
    lemma_int_range(0, count);
    assert(taken.subset_of(set_int_range(0, count))) by {
        assert forall|v: int| taken.contains(v) implies set_int_range(0, count).contains(v) by {
            let i = choose|i: int| firsts.contains(i) && v == place(i);
            lemma_rank_bound(occ, occ[i]);
        }
    }
    lemma_subset_equality(taken, set_int_range(0, count));
    assert(set_int_range(0, count).contains(r as int));
    assert(taken.contains(r as int));
    let i = choose|i: int| firsts.contains(i) && r as int == place(i);
    occ[i]
}

} // verus!
