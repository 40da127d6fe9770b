//! Searching the index: by the shape of a signature, and by name.

use crate::load::edge_index;
use crate::parse::{
    parse_signature, replace_all_spec, replace_arg,
    replace_args, replace_spec, signature_spec,
};
use crate::text::{chars_of, contains, contains_seq};
use crate::types::{
    arg_eq, args_view, clone_arg, clone_args, defs_view, edges_view, lemma_args_view,
    lemma_edges_view, lemma_members_of_args, letter, letters, queries_view, set_equals,
    set_from_vec, strings_view, trie_view, Arg, ArgView, Bucket, Data, Definition, DefinitionView,
    Error, Query, QueryView, Trie, TrieView, LETTERS,
};
use vstd::prelude::*;

verus! {

/// The most definitions that one query may return.
pub const MATCH_LIMIT: usize = 10;

/// The most queries that one request is turned into.
pub const QUERY_LIMIT: usize = 5;

/// Whether definition `d` answers query `q`: the same argument types, taken as
/// a set, so that neither order nor repetition counts, and the same return type.
pub open spec fn matches(d: DefinitionView, q: QueryView) -> bool {
    d.args.to_set() == q.args.to_set() && d.ret == q.ret
}

/// The definitions of `defs` from position `i` on that answer `q`, in order.
pub open spec fn matching_from(defs: Seq<DefinitionView>, q: QueryView, i: int) -> Seq<
    DefinitionView,
>
    decreases defs.len() - i,
{
    if 0 <= i < defs.len() {
        if matches(defs[i], q) {
            seq![defs[i]] + matching_from(defs, q, i + 1)
        } else {
            matching_from(defs, q, i + 1)
        }
    } else {
        Seq::empty()
    }
}

/// The first `MATCH_LIMIT` definitions of `defs` that answer `q`.
pub open spec fn bucket_search(defs: Seq<DefinitionView>, q: QueryView) -> Seq<DefinitionView> {
    let all = matching_from(defs, q, 0);
    if all.len() > MATCH_LIMIT {
        all.subrange(0, MATCH_LIMIT as int)
    } else {
        all
    }
}

/// What the queries `qs` find in `d`: for each in turn, what it finds in the
/// bucket of its arity.
pub open spec fn type_search(d: Data, qs: Seq<QueryView>) -> Seq<DefinitionView>
    decreases qs.len(),
{
    if qs.len() == 0 {
        Seq::empty()
    } else {
        type_search(d, qs.drop_last()) + bucket_search(
            d.bucket(crate::types::bucket_index(qs.last().args.len())),
            qs.last(),
        )
    }
}

/// The definitions of `defs` from position `i` on whose name contains `q`.
pub open spec fn named_from(defs: Seq<DefinitionView>, q: Seq<char>, i: int) -> Seq<
    DefinitionView,
>
    decreases defs.len() - i,
{
    if 0 <= i < defs.len() {
        if contains_seq(defs[i].name, q) {
            seq![defs[i]] + named_from(defs, q, i + 1)
        } else {
            named_from(defs, q, i + 1)
        }
    } else {
        Seq::empty()
    }
}

/// The definitions in the tree `t` whose name contains `q`: those of the node
/// itself, then those below each of its edges, in order.
pub open spec fn collected(t: TrieView, q: Seq<char>) -> Seq<DefinitionView>
    decreases t,
{
    named_from(t.defs, q, 0) + collected_below(t.children, q)
}

/// The definitions below the edges `edges` whose name contains `q`.
pub open spec fn collected_below(edges: Seq<(char, TrieView)>, q: Seq<char>) -> Seq<
    DefinitionView,
>
    decreases edges,
{
    if edges.len() == 0 {
        Seq::empty()
    } else {
        collected_below(edges.drop_last(), q) + collected(edges.last().1, q)
    }
}

/// What a search for `q` finds in the tree `t` after the path `n` was
/// followed: nothing where the path leaves the tree.
pub open spec fn trie_search(t: TrieView, n: Seq<char>, q: Seq<char>) -> Seq<DefinitionView>
    decreases n.len(),
{
    if n.len() == 0 {
        collected(t, q)
    } else {
        let i = edge_index(t.children, n[0]);
        if i < t.children.len() {
            trie_search(t.children[i].1, n.drop_first(), q)
        } else {
            Seq::empty()
        }
    }
}

/// The definitions in bucket `b` that answer `q`, at most `MATCH_LIMIT` of them.
pub fn search_bucket(b: &Bucket, q: &Query) -> (r: Vec<Definition>)
    ensures
        defs_view(r@) == bucket_search(defs_view(b.defs@), q@),
{
    let ghost defs = defs_view(b.defs@);
    let mut results: Vec<Definition> = Vec::new();
    let q_args = set_from_vec(&q.args);
    proof {
        lemma_members_of_args(q.args@);
        assert(defs_view(results@) + matching_from(defs, q@, 0) =~= matching_from(defs, q@, 0));
    }
    let mut i: usize = 0;
    while i < b.defs.len()
        invariant
            i <= b.defs.len(),
            defs == defs_view(b.defs@),
            q_args@ == args_view(q.args@).to_set(),
            matching_from(defs, q@, 0) == defs_view(results@) + matching_from(defs, q@, i as int),
        decreases b.defs.len() - i,
    {
        let d = &b.defs[i];
        let d_args = set_from_vec(&d.args);
        proof {
            lemma_members_of_args(d.args@);
        }
        let e = set_equals(&d_args, &q_args);
        if e && arg_eq(&d.ret, &q.ret) {
            let ghost before = defs_view(results@);
            results.push(d.clone());
            proof {
                assert(defs_view(results@) =~= before + seq![defs[i as int]]);
                assert(before + (seq![defs[i as int]] + matching_from(defs, q@, i + 1))
                    =~= defs_view(results@) + matching_from(defs, q@, i + 1));
            }
        }
        i += 1;
    }
    proof {
        assert(defs_view(results@) + Seq::<DefinitionView>::empty() =~= defs_view(results@));
    }
    if results.len() > MATCH_LIMIT {
        let ghost all = defs_view(results@);
        results.truncate(MATCH_LIMIT);
        assert(defs_view(results@) =~= all.subrange(0, MATCH_LIMIT as int));
    }
    results
}

/// What the queries `qs` find in `d`, the most specific query first.
pub fn search_type(qs: Vec<Query>, d: &Data) -> (r: Vec<Definition>)
    ensures
        defs_view(r@) == type_search(*d, queries_view(qs@)),
{
    let ghost all = queries_view(qs@);
    let mut results: Vec<Definition> = Vec::new();
    let mut i: usize = 0;
    proof {
        assert(all.take(0) =~= Seq::<QueryView>::empty());
        assert(defs_view(results@) =~= Seq::<DefinitionView>::empty());
    }
    while i < qs.len()
        invariant
            i <= qs.len(),
            all == queries_view(qs@),
            defs_view(results@) == type_search(*d, all.take(i as int)),
        decreases qs.len() - i,
    {
        let q = &qs[i];
        let n = q.args.len();
        proof {
            lemma_args_view(q.args@);
            assert(all.take(i + 1).drop_last() =~= all.take(i as int));
            assert(all.take(i + 1).last() == q@);
        }
        let mut res = if n == 0 {
            search_bucket(&d.ar0, q)
        } else if n == 1 {
            search_bucket(&d.ar1, q)
        } else if n == 2 {
            search_bucket(&d.ar2, q)
        } else if n == 3 {
            search_bucket(&d.ar3, q)
        } else if n == 4 {
            search_bucket(&d.ar4, q)
        } else if n == 5 {
            search_bucket(&d.ar5, q)
        } else {
            search_bucket(&d.arn, q)
        };
        let ghost before = defs_view(results@);
        let ghost found = defs_view(res@);
        results.append(&mut res);
        assert(defs_view(results@) =~= before + found);
        i += 1;
    }
    assert(all.take(qs.len() as int) =~= all);
    results
}

/// Appends to `r` the definitions in the tree `t` whose name contains `q`.
fn find_defs(t: &Trie, q: &Vec<char>, r: &mut Vec<Definition>)
    ensures
        defs_view(final(r)@) == defs_view(old(r)@) + collected(t@, q@),
    decreases t,
{
    let ghost start = defs_view(r@);
    let ghost defs = defs_view(t.defs@);
    let mut i: usize = 0;
    proof {
        assert(start + Seq::<DefinitionView>::empty() =~= start);
    }
    while i < t.defs.len()
        invariant
            i <= t.defs.len(),
            defs == defs_view(t.defs@),
            defs_view(r@) + named_from(defs, q@, i as int) == start + named_from(defs, q@, 0),
        decreases t.defs.len() - i,
    {
        let d = &t.defs[i];
        if contains(&chars_of(d.name.as_str()), q) {
            let ghost before = defs_view(r@);
            r.push(d.clone());
            proof {
                assert(defs_view(r@) =~= before + seq![defs[i as int]]);
                assert(before + (seq![defs[i as int]] + named_from(defs, q@, i + 1)) =~= defs_view(
                    r@,
                ) + named_from(defs, q@, i + 1));
            }
        }
        i += 1;
    }
    proof {
        assert(defs_view(r@) + Seq::<DefinitionView>::empty() =~= defs_view(r@));
        lemma_edges_view(t.children@);
    }
    let ghost own = named_from(defs, q@, 0);
    let ghost edges = edges_view(t.children@);
    let mut k: usize = 0;
    proof {
        assert(edges.take(0) =~= Seq::<(char, TrieView)>::empty());
        assert(start + own + collected_below(edges.take(0), q@) =~= start + own);
    }
    while k < t.children.len()
        invariant
            k <= t.children.len(),
            edges == edges_view(t.children@),
            edges.len() == t.children.len(),
            forall|j: int|
                0 <= j < t.children.len() ==> #[trigger] edges[j] == (
                    t.children@[j].0,
                    trie_view(t.children@[j].1),
                ),
            defs_view(r@) == start + own + collected_below(edges.take(k as int), q@),
        decreases t.children.len() - k,
    {
        let ghost before = defs_view(r@);
        find_defs(&t.children[k].1, q, r);
        proof {
            assert(edges.take(k + 1).drop_last() =~= edges.take(k as int));
            assert(edges.take(k + 1).last() == edges[k as int]);
            assert(start + own + collected_below(edges.take(k as int), q@) + collected(
                edges[k as int].1,
                q@,
            ) =~= start + own + (collected_below(edges.take(k as int), q@) + collected(
                edges[k as int].1,
                q@,
            )));
        }
        k += 1;
    }
    proof {
        assert(edges.take(t.children.len() as int) =~= edges);
        assert(start + own + collected_below(edges, q@) =~= start + (own + collected_below(
            edges,
            q@,
        )));
    }
}

/// Follows what is left of `n` from `pos` on down the tree `t`, then appends
/// to `r` the definitions found there whose name contains `q`.
fn search_chars(t: &Trie, n: &Vec<char>, pos: usize, q: &Vec<char>, r: &mut Vec<Definition>)
    requires
        pos <= n.len(),
    ensures
        defs_view(final(r)@) == defs_view(old(r)@) + trie_search(t@, n@.skip(pos as int), q@),
    decreases n.len() - pos,
{
    let ghost rest = n@.skip(pos as int);
    if pos == n.len() {
        find_defs(t, q, r);
    } else {
        let c = n[pos];
        let ghost edges = edges_view(t.children@);
        proof {
            assert(rest[0] == c);
            assert(rest.drop_first() =~= n@.skip(pos + 1));
            lemma_edges_view(t.children@);
        }
        let mut i: usize = 0;
        while i < t.children.len() && t.children[i].0 != c
            invariant
                i <= t.children.len(),
                edges == edges_view(t.children@),
                edges.len() == t.children.len(),
                forall|j: int|
                    0 <= j < t.children.len() ==> #[trigger] edges[j] == (
                        t.children@[j].0,
                        trie_view(t.children@[j].1),
                    ),
                edge_index(edges, c) == crate::load::edge_from(edges, c, i as int),
            decreases t.children.len() - i,
        {
            i += 1;
        }
        if i < t.children.len() {
            search_chars(&t.children[i].1, n, pos + 1, q, r);
        } else {
            assert(defs_view(r@) + Seq::<DefinitionView>::empty() =~= defs_view(r@));
        }
    }
}

/// Follows the path `n` down the tree `t` and appends to `r` every definition
/// at or below the node it reaches whose name contains `q`. Where the path
/// leaves the tree, nothing is appended.
pub fn search_trie(t: &Trie, n: &str, q: &str, r: &mut Vec<Definition>)
    ensures
        defs_view(final(r)@) == defs_view(old(r)@) + trie_search(t@, n@, q@),
{
    let path = chars_of(n);
    assert(path@.skip(0) =~= path@);
    search_chars(t, &path, 0, &chars_of(q), r);
}

/// The canonical definitions that the name index of `d` holds under the path
/// `q` and whose name contains `q`.
pub fn search_name(q: &str, d: &Data) -> (r: Vec<Definition>)
    ensures
        defs_view(r@) == trie_search(d.names@, q@, q@),
{
    let mut results: Vec<Definition> = Vec::new();
    search_trie(&d.names, q, q, &mut results);
    assert(defs_view(Seq::<Definition>::empty()) + trie_search(d.names@, q@, q@) =~= trie_search(
        d.names@,
        q@,
        q@,
    ));
    results
}

/// The names of the types of `a`: of every `Basic` node, in depth-first order,
/// left to right, each as often as it occurs.
pub open spec fn type_names(a: ArgView) -> Seq<Seq<char>>
    decreases a,
{
    match a {
        ArgView::Basic(n) => seq![n],
        ArgView::Parametric(b, ps) => type_names(*b) + type_names_of(ps),
        ArgView::Tuple(es) => type_names_of(es),
        ArgView::Vec(e) => type_names(*e),
        ArgView::Constrained(_, _) => Seq::empty(),
        ArgView::Function(xs, r) => type_names_of(xs) + type_names(*r),
    }
}

/// The names of the types of a list of type expressions.
pub open spec fn type_names_of(s: Seq<ArgView>) -> Seq<Seq<char>>
    decreases s,
{
    if s.len() == 0 {
        Seq::empty()
    } else {
        type_names_of(s.drop_last()) + type_names(s.last())
    }
}

/// Whether a type name may be replaced by a variable: not one that is a
/// single character, and not the mark of the unit type or of a vector.
pub open spec fn can_generalize(n: Seq<char>) -> bool {
    n.len() != 1 && n != seq!['(', ')'] && n != seq!['[', ']']
}

/// The names that a query can be generalized in, from position `i` of its
/// type names on: each name once, where it first occurs.
pub open spec fn candidates_from(names: Seq<Seq<char>>, i: int) -> Seq<Seq<char>>
    decreases names.len() - i,
{
    if 0 <= i < names.len() {
        if can_generalize(names[i]) && crate::canon::first_seen(names, names[i]) == i {
            seq![names[i]] + candidates_from(names, i + 1)
        } else {
            candidates_from(names, i + 1)
        }
    } else {
        Seq::empty()
    }
}

/// The names that the query `q` can be generalized in.
pub open spec fn candidates(q: QueryView) -> Seq<Seq<char>> {
    candidates_from(type_names_of(q.args) + type_names(q.ret), 0)
}

/// `q` with the type `name` replaced throughout by the variable of rank `l`.
pub open spec fn generalized(q: QueryView, name: Seq<char>, l: nat) -> QueryView {
    QueryView {
        args: replace_all_spec(
            q.args,
            ArgView::Basic(name),
            ArgView::Constrained(letter(l), Seq::empty()),
        ),
        ret: replace_spec(
            q.ret,
            ArgView::Basic(name),
            ArgView::Constrained(letter(l), Seq::empty()),
        ),
    }
}

/// Every generalization of `q`, where `l` is the rank of the next unused
/// variable: for each name that can be generalized, in order, `q` with that
/// name replaced, followed by the generalizations of that query. There are
/// none once the letters are used up.
pub open spec fn generalizations(q: QueryView, l: nat) -> Seq<QueryView>
    decreases LETTERS - l, 1nat, 0nat,
{
    if l >= LETTERS {
        Seq::empty()
    } else {
        generalizations_over(q, candidates(q), l, 0)
    }
}

/// The generalizations of `q` in the names `names` from position `i` on.
pub open spec fn generalizations_over(q: QueryView, names: Seq<Seq<char>>, l: nat, i: int) -> Seq<
    QueryView,
>
    decreases LETTERS - l, 0nat, names.len() - i,
{
    if l < LETTERS && 0 <= i < names.len() {
        let g = generalized(q, names[i], l);
        seq![g] + generalizations(g, l + 1) + generalizations_over(q, names, l, i + 1)
    } else {
        Seq::empty()
    }
}

/// The queries `old` followed by `more`, cut off at `QUERY_LIMIT`; `old` as
/// it is where it has reached the limit already.
pub open spec fn extended(old: Seq<QueryView>, more: Seq<QueryView>) -> Seq<QueryView> {
    if old.len() >= QUERY_LIMIT {
        old
    } else if old.len() + more.len() > QUERY_LIMIT {
        (old + more).subrange(0, QUERY_LIMIT as int)
    } else {
        old + more
    }
}

/// Appends to `names` the name of every type of `a`.
fn collect_type_names(a: &Arg, names: &mut Vec<String>)
    ensures
        strings_view(final(names)@) == strings_view(old(names)@) + type_names(a@),
    decreases a, 0nat,
{
    match a {
        Arg::Basic(n) => {
            names.push(n.clone());
            assert(strings_view(names@) =~= strings_view(old(names)@) + seq![n@]);
        },
        Arg::Parametric(b, ps) => {
            collect_type_names(b, names);
            collect_type_names_of(ps, names);
            assert(strings_view(old(names)@) + type_names(b@) + type_names_of(args_view(ps@))
                =~= strings_view(old(names)@) + (type_names(b@) + type_names_of(args_view(ps@))));
        },
        Arg::Tuple(es) => {
            collect_type_names_of(es, names);
        },
        Arg::Vec(e) => {
            collect_type_names(e, names);
        },
        Arg::Constrained(_, _) => {
            assert(strings_view(names@) + Seq::<Seq<char>>::empty() =~= strings_view(names@));
        },
        Arg::Function(xs, r) => {
            collect_type_names_of(xs, names);
            collect_type_names(r, names);
            assert(strings_view(old(names)@) + type_names_of(args_view(xs@)) + type_names(r@)
                =~= strings_view(old(names)@) + (type_names_of(args_view(xs@)) + type_names(r@)));
        },
    }
}

/// Appends to `names` the name of every type of the expressions in `v`.
fn collect_type_names_of(v: &Vec<Arg>, names: &mut Vec<String>)
    ensures
        strings_view(final(names)@) == strings_view(old(names)@) + type_names_of(args_view(v@)),
    decreases v, 1nat,
{
    let mut i: usize = 0;
    assert(args_view(v@.take(0)) =~= Seq::<ArgView>::empty());
    assert(strings_view(names@) + Seq::<Seq<char>>::empty() =~= strings_view(names@));
    while i < v.len()
        invariant
            i <= v.len(),
            strings_view(names@) == strings_view(old(names)@) + type_names_of(
                args_view(v@.take(i as int)),
            ),
        decreases v.len() - i,
    {
        collect_type_names(&v[i], names);
        proof {
            crate::types::lemma_args_view_push(v@.take(i as int), v@[i as int]);
            assert(v@.take(i as int).push(v@[i as int]) =~= v@.take(i + 1));
            let prev = args_view(v@.take(i as int));
            let next = args_view(v@.take(i + 1));
            assert(next.drop_last() =~= prev);
            assert(strings_view(old(names)@) + type_names_of(prev) + type_names(v@[i as int]@)
                =~= strings_view(old(names)@) + (type_names_of(prev) + type_names(v@[i as int]@)));
        }
        i += 1;
    }
    assert(v@.take(v.len() as int) =~= v@);
}

/// Whether the type name `n` may be replaced by a variable.
fn may_generalize(n: &String) -> (b: bool)
    ensures
        b == can_generalize(n@),
{
    let text = chars_of(n.as_str());
    if text.len() == 1 {
        return false;
    }
    if text.len() == 2 {
        let unit = text[0] == '(' && text[1] == ')';
        let vector = text[0] == '[' && text[1] == ']';
        assert(unit == (text@ =~= seq!['(', ')']));
        assert(vector == (text@ =~= seq!['[', ']']));
        return !unit && !vector;
    }
    assert(seq!['(', ')'].len() == 2 && seq!['[', ']'].len() == 2);
    true
}

/// The names that the query of `args` and `ret` can be generalized in.
fn candidate_names(args: &Vec<Arg>, ret: &Arg) -> (r: Vec<String>)
    ensures
        strings_view(r@) == candidates(QueryView { args: args_view(args@), ret: ret@ }),
{
    let mut names: Vec<String> = Vec::new();
    collect_type_names_of(args, &mut names);
    collect_type_names(ret, &mut names);
    let ghost all = strings_view(names@);
    assert(all =~= type_names_of(args_view(args@)) + type_names(ret@)) by {
        assert(strings_view(Seq::<String>::empty()) =~= Seq::<Seq<char>>::empty());
    }
    let mut r: Vec<String> = Vec::new();
    let mut i: usize = 0;
    assert(strings_view(r@) + candidates_from(all, 0) =~= candidates_from(all, 0));
    while i < names.len()
        invariant
            i <= names.len(),
            all == strings_view(names@),
            candidates_from(all, 0) == strings_view(r@) + candidates_from(all, i as int),
        decreases names.len() - i,
    {
        let keep = may_generalize(&names[i]) && crate::canon::first_position(&names, &names[i])
            == i;
        if keep {
            let ghost before = strings_view(r@);
            r.push(names[i].clone());
            proof {
                assert(strings_view(r@) =~= before + seq![all[i as int]]);
                assert(before + (seq![all[i as int]] + candidates_from(all, i + 1))
                    =~= strings_view(r@) + candidates_from(all, i + 1));
            }
        }
        i += 1;
    }
    assert(strings_view(r@) + Seq::<Seq<char>>::empty() =~= strings_view(r@));
    r
}

/// Extending by `a + b` is extending by `a` and then by `b`.
pub proof fn lemma_extended_twice(old: Seq<QueryView>, a: Seq<QueryView>, b: Seq<QueryView>)
    ensures
        extended(extended(old, a), b) == extended(old, a + b),
{
    assert((old + a) + b =~= old + (a + b));
    if old.len() < QUERY_LIMIT {
        if old.len() + a.len() > QUERY_LIMIT {
            assert((old + a).subrange(0, QUERY_LIMIT as int) =~= (old + (a + b)).subrange(
                0,
                QUERY_LIMIT as int,
            ));
        } else if old.len() + a.len() == QUERY_LIMIT {
            assert(old + a =~= (old + (a + b)).subrange(0, QUERY_LIMIT as int));
            if b.len() == 0 {
                assert(a + b =~= a);
            }
        }
    }
}

/// Appends to `q` the generalizations of the query of `args` and `ret`, where
/// `l` is the rank of the next unused variable: each type name in turn is
/// replaced by that variable, and the query so made is generalized further.
/// Nothing is appended once `q` holds `QUERY_LIMIT` queries.
pub fn generalize_queries(args: &Vec<Arg>, ret: &Arg, l: usize, q: &mut Vec<Query>)
    ensures
        queries_view(final(q)@) == extended(
            queries_view(old(q)@),
            generalizations(QueryView { args: args_view(args@), ret: ret@ }, l as nat),
        ),
    decreases LETTERS - l,
{
    let ghost start = queries_view(q@);
    let ghost this = QueryView { args: args_view(args@), ret: ret@ };
    if l >= LETTERS {
        assert(start + Seq::<QueryView>::empty() =~= start);
        return ;
    }
    let names = candidate_names(args, ret);
    let ghost cands = strings_view(names@);
    let ghost done = Seq::<QueryView>::empty();
    let mut i: usize = 0;
    proof {
        assert(start + done =~= start);
        assert(done + generalizations_over(this, cands, l as nat, 0) =~= generalizations_over(
            this,
            cands,
            l as nat,
            0,
        ));
    }
    while i < names.len() && q.len() < QUERY_LIMIT
        invariant
            i <= names.len(),
            l < LETTERS,
            cands == strings_view(names@),
            cands == candidates(this),
            this == (QueryView { args: args_view(args@), ret: ret@ }),
            start == queries_view(old(q)@),
            queries_view(q@) == extended(start, done),
            generalizations(this, l as nat) == done + generalizations_over(
                this,
                cands,
                l as nat,
                i as int,
            ),
        decreases names.len() - i,
    {
        let letter_name = match letters(l) {
            Ok(s) => s,
            Err(_) => {
                return ;
            },
        };
        let from = Arg::Basic(names[i].clone());
        let to = Arg::Constrained(letter_name, Vec::new());
        proof {
            assert(from@ == ArgView::Basic(cands[i as int]));
            assert(to@ == ArgView::Constrained(letter(l as nat), Seq::empty())) by {
                assert(crate::types::constraints_view(Seq::empty()) =~= Seq::<Seq<char>>::empty());
            }
        }
        let nargs = replace_args(args, &from, &to);
        let nret = replace_arg(ret, &from, &to);
        let ghost g = generalized(this, cands[i as int], l as nat);
        let ghost before = queries_view(q@);
        q.push(Query { args: clone_args(&nargs), ret: clone_arg(&nret) });
        proof {
            assert(queries_view(q@) =~= before + seq![g]);
            assert(before == start + done);
            assert(queries_view(q@) == extended(before, seq![g]));
        }
        generalize_queries(&nargs, &nret, l + 1, q);
        proof {
            let deeper = generalizations(g, (l + 1) as nat);
            let rest = generalizations_over(this, cands, l as nat, i + 1);
            lemma_extended_twice(start, done, seq![g]);
            lemma_extended_twice(start, done + seq![g], deeper);
            assert(done + (seq![g] + deeper + rest) =~= (done + seq![g] + deeper) + rest);
            done = done + seq![g] + deeper;
        }
        i += 1;
    }
    proof {
        let rest = generalizations_over(this, cands, l as nat, i as int);
        lemma_extended_twice(start, done, rest);
        if i == names.len() {
            assert(done + rest =~= done);
        }
    }
}

/// The most specific query that the text `q` denotes: its signature in
/// canonical form.
pub open spec fn first_query(q: Seq<char>) -> Result<(QueryView, nat), Error> {
    match signature_spec(q, None, true) {
        Ok((args, ret, n)) => Ok((QueryView { args, ret }, n)),
        Err(e) => Err(e),
    }
}

/// The queries that the text `q` is turned into: the one it denotes, then its
/// generalizations, `QUERY_LIMIT` in all at most.
pub open spec fn query_spec(q: Seq<char>) -> Result<Seq<QueryView>, Error> {
    match first_query(q) {
        Ok((first, n)) => Ok(extended(seq![first], generalizations(first, n))),
        Err(e) => Err(e),
    }
}

/// Turns the text of a request into queries, the most specific first. Fails
/// where the text is no signature.
pub fn query(q: &str) -> (r: Result<Vec<Query>, Error>)
    ensures
        match r {
            Ok(qs) => query_spec(q@) == Ok::<Seq<QueryView>, Error>(queries_view(qs@)) && qs.len()
                >= 1,
            Err(e) => query_spec(q@) == Err::<Seq<QueryView>, Error>(e),
        },
{
    match parse_signature(q, None, true) {
        Err(e) => Err(e),
        Ok((args, ret, l)) => {
            let mut queries: Vec<Query> = Vec::new();
            queries.push(Query { args: clone_args(&args), ret: clone_arg(&ret) });
            let ghost first = QueryView { args: args_view(args@), ret: ret@ };
            assert(queries_view(queries@) =~= seq![first]);
            generalize_queries(&args, &ret, l, &mut queries);
            proof {
                let more = generalizations(first, l as nat);
                assert(extended(seq![first], more).len() >= 1);
                assert(queries_view(queries@).len() == queries.len());
                assert(first_query(q@) == Ok::<(QueryView, nat), Error>((first, l as nat)));
            }
            Ok(queries)
        },
    }
}

/// Whether a request asks by signature: it does if it holds `->` or a comma.
/// Any other request asks by name.
pub open spec fn is_type_request(q: Seq<char>) -> bool {
    contains_seq(q, seq!['-', '>']) || contains_seq(q, seq![','])
}

/// What a request finds in `d`: by signature where it is written as one, by
/// name otherwise.
pub open spec fn search_spec(q: Seq<char>, d: Data) -> Result<Seq<DefinitionView>, Error> {
    if is_type_request(q) {
        match query_spec(q) {
            Ok(qs) => Ok(type_search(d, qs)),
            Err(e) => Err(e),
        }
    } else {
        Ok(trie_search(d.names@, q, q))
    }
}

/// Answers the request `q` from the index `d`.
pub fn run_search(q: &str, d: &Data) -> (r: Result<Vec<Definition>, Error>)
    ensures
        match r {
            Ok(found) => search_spec(q@, *d) == Ok::<Seq<DefinitionView>, Error>(defs_view(found@)),
            Err(e) => search_spec(q@, *d) == Err::<Seq<DefinitionView>, Error>(e),
        },
{
    proof {
        reveal_strlit("->");
        reveal_strlit(",");
        assert("->"@ =~= seq!['-', '>']);
        assert(","@ =~= seq![',']);
    }
    let text = chars_of(q);
    if contains(&text, &chars_of("->")) || contains(&text, &chars_of(",")) {
        match query(q) {
            Ok(qs) => Ok(search_type(qs, d)),
            Err(e) => Err(e),
        }
    } else {
        Ok(search_name(q, d))
    }
}

/// Matching looks at which argument types occur, not at their order nor at
/// how often one is repeated: a definition answers a query exactly if the
/// return types are the same, every argument of the one occurs among the
/// arguments of the other, and the other way round.
pub proof fn matching_is_by_set_of_arguments(d: DefinitionView, q: QueryView)
    ensures
        matches(d, q) <==> (d.ret == q.ret && (forall|i: int|
            0 <= i < d.args.len() ==> q.args.contains(#[trigger] d.args[i])) && (forall|i: int|
            0 <= i < q.args.len() ==> d.args.contains(#[trigger] q.args[i]))),
{
    if matches(d, q) {
        assert forall|i: int| 0 <= i < d.args.len() implies q.args.contains(
            #[trigger] d.args[i],
        ) by {
            assert(d.args.to_set().contains(d.args[i]));
        }
        assert forall|i: int| 0 <= i < q.args.len() implies d.args.contains(
            #[trigger] q.args[i],
        ) by {
            assert(q.args.to_set().contains(q.args[i]));
        }
    }
    if d.ret == q.ret && (forall|i: int|
        0 <= i < d.args.len() ==> q.args.contains(#[trigger] d.args[i])) && (forall|i: int|
        0 <= i < q.args.len() ==> d.args.contains(#[trigger] q.args[i])) {
        assert(d.args.to_set() =~= q.args.to_set());
    }
}

/// A query finds only definitions that answer it, and never more than
/// `MATCH_LIMIT` of them.
pub proof fn bucket_search_finds_matches(defs: Seq<DefinitionView>, q: QueryView)
    ensures
        bucket_search(defs, q).len() <= MATCH_LIMIT,
        forall|i: int|
            0 <= i < bucket_search(defs, q).len() ==> matches(
                #[trigger] bucket_search(defs, q)[i],
                q,
            ) && defs.contains(bucket_search(defs, q)[i]),
{
    lemma_matching_from(defs, q, 0);
}

pub proof fn lemma_matching_from(defs: Seq<DefinitionView>, q: QueryView, i: int)
    requires
        0 <= i <= defs.len(),
    ensures
        forall|k: int|
            0 <= k < matching_from(defs, q, i).len() ==> matches(
                #[trigger] matching_from(defs, q, i)[k],
                q,
            ) && defs.contains(matching_from(defs, q, i)[k]),
    decreases defs.len() - i,
{
    if i < defs.len() {
        lemma_matching_from(defs, q, i + 1);
        let rest = matching_from(defs, q, i + 1);
        let all = matching_from(defs, q, i);
        assert forall|k: int| 0 <= k < all.len() implies matches(#[trigger] all[k], q)
            && defs.contains(all[k]) by {
            if matches(defs[i], q) {
                if k == 0 {
                    assert(all[0] == defs[i]);
                } else {
                    assert(all[k] == rest[k - 1]);
                }
            }
        }
    }
}

} // verus!
