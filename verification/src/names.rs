//! What a search by name finds in the name index of a catalog.
//!
//! The index is a prefix tree, the search a walk down the path that the
//! request spells and then through everything below. The laws here say what
//! that comes to: the canonical definitions whose name begins with the
//! request.

use crate::load::{
    distinct_edges, edge_from, edge_index, empty_trie, inserted, lemma_edge_from,
    lemma_edge_missing, name_index,
    name_index_has_distinct_edges,
};
use crate::query::{collected, collected_below, named_from, trie_search};
use crate::text::{contains_seq, has_prefix, occurs_at};
use crate::types::{DefinitionView, TrieView};
use vstd::prelude::*;

verus! {

/// Whether `d` is kept at the node of `t` that the path `name` leads to.
pub open spec fn stored(t: TrieView, name: Seq<char>, d: DefinitionView) -> bool
    decreases name.len(),
{
    if name.len() == 0 {
        t.defs.contains(d)
    } else {
        let i = edge_index(t.children, name[0]);
        i < t.children.len() && stored(t.children[i].1, name.drop_first(), d)
    }
}

/// Where the edge labelled `c` stands depends on the labels alone.
pub proof fn lemma_edge_from_labels(
    a: Seq<(char, TrieView)>,
    b: Seq<(char, TrieView)>,
    c: char,
    i: int,
)
    requires
        0 <= i <= a.len(),
        a.len() <= b.len(),
        forall|k: int| 0 <= k < a.len() ==> (#[trigger] a[k]).0 == (#[trigger] b[k]).0,
        edge_from(a, c, i) < a.len() || a.len() == b.len(),
    ensures
        edge_from(b, c, i) == edge_from(a, c, i),
    decreases a.len() - i,
{
    if i < a.len() {
        assert(a[i].0 == b[i].0);
        if a[i].0 != c {
            lemma_edge_from_labels(a, b, c, i + 1);
        }
    }
}

/// After `d` was added under `name`, the tree keeps at the end of a path
/// what it kept there before, and `d` at the end of `name`; it keeps nothing
/// else.
pub proof fn lemma_stored_after_insert(
    t: TrieView,
    name: Seq<char>,
    d: DefinitionView,
    path: Seq<char>,
    e: DefinitionView,
)
    ensures
        stored(inserted(t, name, d), path, e) <==> stored(t, path, e) || (path == name && e == d),
    decreases name.len(),
{
    let r = inserted(t, name, d);
    if name.len() == 0 {
        if path.len() == 0 {
            assert(path =~= name);
            if r.defs.contains(e) {
                let k = choose|k: int| 0 <= k < r.defs.len() && r.defs[k] == e;
                if k < t.defs.len() {
                    assert(t.defs[k] == e);
                }
            }
            if t.defs.contains(e) {
                let k = choose|k: int| 0 <= k < t.defs.len() && t.defs[k] == e;
                assert(r.defs[k] == e);
            }
            assert(r.defs[t.defs.len() as int] == d);
        }
    } else {
        let c = name[0];
        let i = edge_index(t.children, c);
        lemma_edge_from(t.children, c, 0);
        if path.len() == 0 {
        } else {
            let p = path[0];
            let j = edge_index(t.children, p);
            lemma_edge_from(t.children, p, 0);
            if i < t.children.len() {
                lemma_edge_from_labels(t.children, r.children, p, 0);
                if j == i {
                    assert(p == c);
                    lemma_stored_after_insert(
                        t.children[i].1,
                        name.drop_first(),
                        d,
                        path.drop_first(),
                        e,
                    );
                    if path.drop_first() == name.drop_first() {
                        assert(path =~= seq![p] + path.drop_first());
                        assert(name =~= seq![c] + name.drop_first());
                    }
                } else if j < t.children.len() {
                    assert(r.children[j] == t.children[j]);
                    assert(p != c);
                }
            } else {
                lemma_edge_missing(t.children, c, 0);
                if j < t.children.len() {
                    assert(p != c);
                    lemma_edge_from_labels(t.children, r.children, p, 0);
                    assert(r.children[j] == t.children[j]);
                } else {
                    lemma_edge_missing(t.children, p, 0);
                    lemma_edge_at_end(t.children, r.children, p, 0);
                    if p == c {
                        lemma_stored_after_insert(
                            empty_trie(),
                            name.drop_first(),
                            d,
                            path.drop_first(),
                            e,
                        );
                        lemma_empty_stores_nothing(path.drop_first(), e);
                        if path.drop_first() == name.drop_first() {
                            assert(path =~= seq![p] + path.drop_first());
                            assert(name =~= seq![c] + name.drop_first());
                        }
                    }
                }
            }
        }
    }
}

/// Where no edge of `a` is labelled `c`, the search among `a` with one more
/// edge ends at that edge if it is labelled `c`, and past it if not.
pub proof fn lemma_edge_at_end(a: Seq<(char, TrieView)>, b: Seq<(char, TrieView)>, c: char, i: int)
    requires
        0 <= i <= a.len(),
        b.len() == a.len() + 1,
        forall|k: int| 0 <= k < a.len() ==> (#[trigger] a[k]).0 == (#[trigger] b[k]).0,
        forall|k: int| i <= k < a.len() ==> (#[trigger] a[k]).0 != c,
    ensures
        edge_from(b, c, i) == if b[a.len() as int].0 == c {
            a.len() as int
        } else {
            b.len() as int
        },
    decreases a.len() - i,
{
    if i < a.len() {
        assert(a[i].0 == b[i].0);
        assert(a[i].0 != c);
        lemma_edge_at_end(a, b, c, i + 1);
    } else {
        assert(edge_from(b, c, b.len() as int) == b.len());
    }
}

/// The empty tree keeps nothing.
pub proof fn lemma_empty_stores_nothing(path: Seq<char>, e: DefinitionView)
    ensures
        !stored(empty_trie(), path, e),
{
}

/// The name index of a catalog keeps a definition at the end of a path
/// exactly if the catalog holds it marked canonical and the path spells its
/// name.
pub proof fn lemma_stored_in_name_index(
    entries: Seq<(DefinitionView, bool)>,
    path: Seq<char>,
    d: DefinitionView,
)
    ensures
        stored(name_index(entries), path, d) <==> entries.contains((d, true)) && d.name == path,
    decreases entries.len(),
{
    if entries.len() == 0 {
        lemma_empty_stores_nothing(path, d);
    } else {
        let front = entries.drop_last();
        let e = entries.last();
        lemma_stored_in_name_index(front, path, d);
        if e.1 {
            lemma_stored_after_insert(name_index(front), e.0.name, e.0, path, d);
        }
        if front.contains((d, true)) {
            let k = choose|k: int| 0 <= k < front.len() && front[k] == (d, true);
            assert(entries[k] == (d, true));
        }
        if entries.contains((d, true)) {
            let k = choose|k: int| 0 <= k < entries.len() && entries[k] == (d, true);
            if k < front.len() {
                assert(front[k] == (d, true));
            }
        }
        assert(entries[entries.len() - 1] == e);
    }
}

/// What is in one of two lists is in both together, and nothing else is.
pub proof fn lemma_in_either(a: Seq<DefinitionView>, b: Seq<DefinitionView>, d: DefinitionView)
    ensures
        (a + b).contains(d) <==> a.contains(d) || b.contains(d),
{
    if a.contains(d) {
        let k = choose|k: int| 0 <= k < a.len() && a[k] == d;
        assert((a + b)[k] == d);
    }
    if b.contains(d) {
        let k = choose|k: int| 0 <= k < b.len() && b[k] == d;
        assert((a + b)[a.len() + k] == d);
    }
    if (a + b).contains(d) {
        let k = choose|k: int| 0 <= k < (a + b).len() && (a + b)[k] == d;
        if k < a.len() {
            assert(a[k] == d);
        } else {
            assert(b[k - a.len()] == d);
        }
    }
}

/// The definitions picked by name are those of the list whose name holds the
/// text.
pub proof fn lemma_named_from(
    defs: Seq<DefinitionView>,
    q: Seq<char>,
    i: int,
    d: DefinitionView,
)
    requires
        0 <= i <= defs.len(),
    ensures
        named_from(defs, q, i).contains(d) <==> contains_seq(d.name, q) && exists|k: int|
            i <= k < defs.len() && defs[k] == d,
    decreases defs.len() - i,
{
    if i < defs.len() {
        lemma_named_from(defs, q, i + 1, d);
        let rest = named_from(defs, q, i + 1);
        if contains_seq(defs[i].name, q) {
            lemma_in_either(seq![defs[i]], rest, d);
            if seq![defs[i]].contains(d) {
                let k = choose|k: int| 0 <= k < seq![defs[i]].len() && seq![defs[i]][k] == d;
                assert(defs[i] == d);
            }
            if defs[i] == d {
                assert(seq![defs[i]][0] == d);
            }
        }
        if exists|k: int| i <= k < defs.len() && defs[k] == d {
            let k = choose|k: int| i <= k < defs.len() && defs[k] == d;
            if k > i {
                assert(i + 1 <= k < defs.len() && defs[k] == d);
            }
        }
    }
}

/// What is collected below the edges of a node is what is collected from the
/// subtree of one of them.
pub proof fn lemma_collected_below(edges: Seq<(char, TrieView)>, q: Seq<char>, d: DefinitionView)
    ensures
        collected_below(edges, q).contains(d) <==> exists|k: int|
            0 <= k < edges.len() && collected(#[trigger] edges[k].1, q).contains(d),
    decreases edges.len(),
{
    if edges.len() > 0 {
        let front = edges.drop_last();
        lemma_collected_below(front, q, d);
        lemma_in_either(collected_below(front, q), collected(edges.last().1, q), d);
        if exists|k: int| 0 <= k < front.len() && collected(#[trigger] front[k].1, q).contains(d) {
            let k = choose|k: int|
                0 <= k < front.len() && collected(#[trigger] front[k].1, q).contains(d);
            assert(edges[k] == front[k]);
        }
        if exists|k: int| 0 <= k < edges.len() && collected(#[trigger] edges[k].1, q).contains(d) {
            let k = choose|k: int|
                0 <= k < edges.len() && collected(#[trigger] edges[k].1, q).contains(d);
            if k < front.len() {
                assert(front[k] == edges[k]);
            }
        }
    }
}

/// Where the edges of a node are labelled differently, the edge found for
/// the label of an edge is that edge.
pub proof fn lemma_edge_of_label(edges: Seq<(char, TrieView)>, k: int, i: int)
    requires
        0 <= i <= k < edges.len(),
        forall|a: int, b: int|
            0 <= a < b < edges.len() ==> (#[trigger] edges[a]).0 != (#[trigger] edges[b]).0,
    ensures
        edge_from(edges, edges[k].0, i) == k,
    decreases k - i,
{
    if i < k {
        assert(edges[i].0 != edges[k].0);
        lemma_edge_of_label(edges, k, i + 1);
    }
}

/// In a tree whose edges are labelled differently at every node, what is
/// collected for a text is what the tree keeps somewhere and whose name
/// holds the text.
pub proof fn lemma_collected(t: TrieView, q: Seq<char>, d: DefinitionView)
    requires
        distinct_edges(t),
    ensures
        collected(t, q).contains(d) <==> contains_seq(d.name, q) && exists|path: Seq<char>|
            stored(t, path, d),
    decreases t,
{
    let own = named_from(t.defs, q, 0);
    let below = collected_below(t.children, q);
    lemma_in_either(own, below, d);
    lemma_named_from(t.defs, q, 0, d);
    lemma_collected_below(t.children, q, d);
    if own.contains(d) {
        assert(stored(t, Seq::<char>::empty(), d));
    }
    if below.contains(d) {
        let k = choose|k: int|
            0 <= k < t.children.len() && collected(#[trigger] t.children[k].1, q).contains(d);
        assert(distinct_edges(t.children[k].1));
        lemma_collected(t.children[k].1, q, d);
        let rest = choose|path: Seq<char>| stored(t.children[k].1, path, d);
        let path = seq![t.children[k].0] + rest;
        lemma_edge_of_label(t.children, k, 0);
        assert(path.drop_first() =~= rest);
        assert(stored(t, path, d));
    }
    if contains_seq(d.name, q) && exists|path: Seq<char>| stored(t, path, d) {
        let path = choose|path: Seq<char>| stored(t, path, d);
        if path.len() == 0 {
            let k = choose|k: int| 0 <= k < t.defs.len() && t.defs[k] == d;
            assert(0 <= k < t.defs.len() && t.defs[k] == d);
        } else {
            let i = edge_index(t.children, path[0]);
            lemma_edge_from(t.children, path[0], 0);
            assert(i < t.children.len() && stored(t.children[i].1, path.drop_first(), d));
            assert(distinct_edges(t.children[i].1));
            lemma_collected(t.children[i].1, q, d);
            assert(collected(t.children[i].1, q).contains(d));
        }
    }
}

/// In a tree whose edges are labelled differently at every node, a search
/// down the path `n` for the text `q` finds what the tree keeps at or below
/// the end of `n` and whose name holds `q`.
pub proof fn lemma_trie_search(t: TrieView, n: Seq<char>, q: Seq<char>, d: DefinitionView)
    requires
        distinct_edges(t),
    ensures
        trie_search(t, n, q).contains(d) <==> contains_seq(d.name, q) && exists|rest: Seq<char>|
            stored(t, n + rest, d),
    decreases n.len(),
{
    if n.len() == 0 {
        lemma_collected(t, q, d);
        if exists|path: Seq<char>| stored(t, path, d) {
            let path = choose|path: Seq<char>| stored(t, path, d);
            assert(n + path =~= path);
        }
        if exists|rest: Seq<char>| stored(t, n + rest, d) {
            let rest = choose|rest: Seq<char>| stored(t, n + rest, d);
            assert(n + rest =~= rest);
        }
    } else {
        let i = edge_index(t.children, n[0]);
        if i < t.children.len() {
            let child = t.children[i].1;
            let m = n.drop_first();
            lemma_edge_from(t.children, n[0], 0);
            assert(distinct_edges(t.children[i].1));
            lemma_trie_search(child, m, q, d);
            if exists|rest: Seq<char>| stored(child, m + rest, d) {
                let rest = choose|rest: Seq<char>| stored(child, m + rest, d);
                assert((n + rest).drop_first() =~= m + rest);
                assert(stored(t, n + rest, d));
            }
            if exists|rest: Seq<char>| stored(t, n + rest, d) {
                let rest = choose|rest: Seq<char>| stored(t, n + rest, d);
                assert((n + rest).drop_first() =~= m + rest);
                assert(stored(child, m + rest, d));
            }
        } else {
            assert forall|rest: Seq<char>| !stored(t, n + rest, d) by {
                assert((n + rest)[0] == n[0]);
            }
        }
    }
}

/// A search by name in the index of a catalog finds exactly the definitions
/// that the catalog holds marked canonical and whose name begins with the
/// request.
pub proof fn name_search_finds_names_that_begin_so(
    entries: Seq<(DefinitionView, bool)>,
    q: Seq<char>,
    d: DefinitionView,
)
    ensures
        trie_search(name_index(entries), q, q).contains(d) <==> entries.contains((d, true))
            && has_prefix(d.name, q),
{
    let t = name_index(entries);
    name_index_has_distinct_edges(entries);
    lemma_trie_search(t, q, q, d);
    if exists|rest: Seq<char>| stored(t, q + rest, d) {
        let rest = choose|rest: Seq<char>| stored(t, q + rest, d);
        lemma_stored_in_name_index(entries, q + rest, d);
        assert(d.name.subrange(0, q.len() as int) =~= q);
    }
    if entries.contains((d, true)) && has_prefix(d.name, q) {
        let rest = d.name.subrange(q.len() as int, d.name.len() as int);
        assert(q + rest =~= d.name);
        lemma_stored_in_name_index(entries, d.name, d);
        assert(stored(t, q + rest, d));
        assert(occurs_at(d.name, q, 0));
    }
}

} // verus!
