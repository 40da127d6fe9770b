//! Building the index: every definition goes into the bucket of its arity,
//! and every canonical definition into the prefix tree of names.

use crate::canon::{lemma_rename_all, rename_all, rename_vars};
use crate::parse::{parse_signature, signature_spec};
use crate::text::chars_of;
use crate::types::{
    arg_view, args_view, bucket_index, clone_constraints, defs_view,
    edges_view, empty_data, lemma_args_view, lemma_edges_view, letter, letters, trie_view, Arg,
    Bucket, Data, Definition, DefinitionView, Error, Trie, TrieView,
};
use vstd::prelude::*;

verus! {

/// The prefix tree that holds nothing.
pub open spec fn empty_trie() -> TrieView {
    TrieView { children: Seq::empty(), defs: Seq::empty() }
}

/// The first position at or after `i` whose edge is labelled `c`, or the
/// number of edges.
pub open spec fn edge_from(edges: Seq<(char, TrieView)>, c: char, i: int) -> int
    decreases edges.len() - i,
{
    if 0 <= i < edges.len() && edges[i].0 != c {
        edge_from(edges, c, i + 1)
    } else {
        i
    }
}

/// The position of the edge labelled `c`, or the number of edges.
pub open spec fn edge_index(edges: Seq<(char, TrieView)>, c: char) -> int {
    edge_from(edges, c, 0)
}

/// The tree `t` after `d` was added under `name`: the path spelled by `name`
/// is followed, new edges are added at the end of a node where it leaves the
/// tree, and `d` is appended to the definitions of the node where it ends.
pub open spec fn inserted(t: TrieView, name: Seq<char>, d: DefinitionView) -> TrieView
    decreases name.len(),
{
    if name.len() == 0 {
        TrieView { children: t.children, defs: t.defs.push(d) }
    } else {
        let c = name[0];
        let i = edge_index(t.children, c);
        if i < t.children.len() {
            TrieView {
                children: t.children.update(
                    i,
                    (c, inserted(t.children[i].1, name.drop_first(), d)),
                ),
                defs: t.defs,
            }
        } else {
            TrieView {
                children: t.children.push((c, inserted(empty_trie(), name.drop_first(), d))),
                defs: t.defs,
            }
        }
    }
}

/// The values of a list of catalog entries, in order.
pub open spec fn entries_view(s: Seq<(Definition, bool)>) -> Seq<(DefinitionView, bool)> {
    Seq::new(s.len(), |i: int| (s[i].0@, s[i].1))
}

/// The definitions among `entries` that belong in bucket `k`, in order.
pub open spec fn bucket_of(entries: Seq<(DefinitionView, bool)>, k: int) -> Seq<DefinitionView>
    decreases entries.len(),
{
    if entries.len() == 0 {
        Seq::empty()
    } else {
        let rest = bucket_of(entries.drop_last(), k);
        let d = entries.last().0;
        if bucket_index(d.args.len()) == k {
            rest.push(d)
        } else {
            rest
        }
    }
}

/// The prefix tree of the canonical definitions among `entries`, each added
/// under its name, in order.
pub open spec fn name_index(entries: Seq<(DefinitionView, bool)>) -> TrieView
    decreases entries.len(),
{
    if entries.len() == 0 {
        empty_trie()
    } else {
        let t = name_index(entries.drop_last());
        let e = entries.last();
        if e.1 {
            inserted(t, e.0.name, e.0)
        } else {
            t
        }
    }
}

pub proof fn lemma_edge_from(edges: Seq<(char, TrieView)>, c: char, i: int)
    requires
        0 <= i <= edges.len(),
    ensures
        i <= edge_from(edges, c, i) <= edges.len(),
        edge_from(edges, c, i) < edges.len() ==> edges[edge_from(edges, c, i)].0 == c,
    decreases edges.len() - i,
{
    if i < edges.len() && edges[i].0 != c {
        lemma_edge_from(edges, c, i + 1);
    }
}

/// Whether the edges of every node of `t` are labelled differently: what sets
/// the list of edges of a node apart from any list, and makes it a map from
/// characters to subtrees.
pub open spec fn distinct_edges(t: TrieView) -> bool
    decreases t,
{
    &&& forall|i: int, j: int|
        0 <= i < j < t.children.len() ==> (#[trigger] t.children[i]).0 != (
        #[trigger] t.children[j]).0
    &&& forall|i: int| 0 <= i < t.children.len() ==> distinct_edges((#[trigger] t.children[i]).1)
}

pub proof fn lemma_edge_missing(edges: Seq<(char, TrieView)>, c: char, i: int)
    requires
        0 <= i <= edges.len(),
        edge_from(edges, c, i) >= edges.len(),
    ensures
        forall|k: int| i <= k < edges.len() ==> (#[trigger] edges[k]).0 != c,
    decreases edges.len() - i,
{
    if i < edges.len() {
        lemma_edge_missing(edges, c, i + 1);
    }
}

/// Adding a definition keeps the edges of every node labelled differently.
pub proof fn lemma_inserted_keeps_edges_distinct(t: TrieView, name: Seq<char>, d: DefinitionView)
    requires
        distinct_edges(t),
    ensures
        distinct_edges(inserted(t, name, d)),
    decreases name.len(),
{
    if name.len() > 0 {
        let c = name[0];
        let i = edge_index(t.children, c);
        let r = inserted(t, name, d);
        lemma_edge_from(t.children, c, 0);
        if i < t.children.len() {
            lemma_inserted_keeps_edges_distinct(t.children[i].1, name.drop_first(), d);
            assert forall|k: int| 0 <= k < r.children.len() implies distinct_edges(
                (#[trigger] r.children[k]).1,
            ) by {
                if k != i {
                    assert(r.children[k] == t.children[k]);
                }
            }
            assert forall|a: int, b: int| 0 <= a < b < r.children.len() implies (
            #[trigger] r.children[a]).0 != (#[trigger] r.children[b]).0 by {
                assert(r.children[a].0 == t.children[a].0);
                assert(r.children[b].0 == t.children[b].0);
            }
        } else {
            lemma_edge_missing(t.children, c, 0);
            assert(distinct_edges(empty_trie()));
            lemma_inserted_keeps_edges_distinct(empty_trie(), name.drop_first(), d);
            assert forall|k: int| 0 <= k < r.children.len() implies distinct_edges(
                (#[trigger] r.children[k]).1,
            ) by {
                if k < t.children.len() {
                    assert(r.children[k] == t.children[k]);
                }
            }
            assert forall|a: int, b: int| 0 <= a < b < r.children.len() implies (
            #[trigger] r.children[a]).0 != (#[trigger] r.children[b]).0 by {
                assert(r.children[a] == t.children[a]);
                if b < t.children.len() {
                    assert(r.children[b] == t.children[b]);
                }
            }
        }
    }
}

/// In the name index of any catalog the edges of every node are labelled
/// differently.
pub proof fn name_index_has_distinct_edges(entries: Seq<(DefinitionView, bool)>)
    ensures
        distinct_edges(name_index(entries)),
    decreases entries.len(),
{
    if entries.len() > 0 {
        name_index_has_distinct_edges(entries.drop_last());
        let e = entries.last();
        if e.1 {
            lemma_inserted_keeps_edges_distinct(name_index(entries.drop_last()), e.0.name, e.0);
        }
    }
}

/// A definition is in bucket `k` only if its arity belongs there, and every
/// definition is in the bucket of its arity: one of seven arguments is in the
/// last bucket and in no other.
pub proof fn bucket_holds_its_arity(entries: Seq<(DefinitionView, bool)>, k: int)
    ensures
        forall|i: int|
            0 <= i < bucket_of(entries, k).len() ==> bucket_index(
                (#[trigger] bucket_of(entries, k)[i]).args.len(),
            ) == k,
        forall|j: int|
            0 <= j < entries.len() && bucket_index(entries[j].0.args.len()) == k ==> bucket_of(
                entries,
                k,
            ).contains(#[trigger] entries[j].0),
        forall|j: int|
            0 <= j < entries.len() && bucket_index(entries[j].0.args.len()) != k ==> !bucket_of(
                entries,
                k,
            ).contains(#[trigger] entries[j].0),
    decreases entries.len(),
{
    if entries.len() > 0 {
        let front = entries.drop_last();
        bucket_holds_its_arity(front, k);
        let b = bucket_of(entries, k);
        let rest = bucket_of(front, k);
        let d = entries.last().0;
        assert forall|j: int|
            0 <= j < entries.len() && bucket_index(entries[j].0.args.len()) == k implies b.contains(
            #[trigger] entries[j].0,
        ) by {
            if j < front.len() {
                assert(front[j] == entries[j]);
                let i = choose|i: int| 0 <= i < rest.len() && rest[i] == front[j].0;
                assert(b[i] == entries[j].0);
            } else {
                assert(b[rest.len() as int] == d);
            }
        }
        assert forall|j: int|
            0 <= j < entries.len() && bucket_index(entries[j].0.args.len()) != k implies !b.contains(
            #[trigger] entries[j].0,
        ) by {
            if b.contains(entries[j].0) {
                let i = choose|i: int| 0 <= i < b.len() && b[i] == entries[j].0;
                assert(bucket_index(b[i].args.len()) == k);
            }
        }
    }
}

/// Puts `d` at the end of bucket `b`.
pub fn bucket_drop(b: &mut Bucket, d: Definition)
    ensures
        defs_view(final(b).defs@) == defs_view(old(b).defs@).push(d@),
{
    b.defs.push(d);
    assert(defs_view(b.defs@) =~= defs_view(old(b).defs@).push(d@));
}

/// The position of the edge labelled `c` among `edges`, or their number.
fn find_edge(edges: &Vec<(char, Trie)>, c: char) -> (i: usize)
    ensures
        i == edge_index(edges_view(edges@), c),
        i <= edges.len(),
{
    let ghost view = edges_view(edges@);
    proof {
        lemma_edges_view(edges@);
    }
    let mut i: usize = 0;
    while i < edges.len() && edges[i].0 != c
        invariant
            i <= edges.len(),
            view == edges_view(edges@),
            view.len() == edges.len(),
            forall|k: int| 0 <= k < edges.len() ==> #[trigger] view[k] == (
                edges@[k].0,
                trie_view(edges@[k].1),
            ),
            edge_index(view, c) == edge_from(view, c, i as int),
        decreases edges.len() - i,
    {
        i += 1;
    }
    i
}

/// Adds `d` to the tree `t` under what is left of `name` from `pos` on.
fn add_chars(t: Trie, name: &Vec<char>, pos: usize, d: Definition) -> (r: Trie)
    requires
        pos <= name.len(),
    ensures
        r@ == inserted(t@, name@.skip(pos as int), d@),
    decreases name.len() - pos,
{
    let mut t = t;
    let ghost before = t@;
    let ghost rest = name@.skip(pos as int);
    if pos == name.len() {
        t.defs.push(d);
        assert(defs_view(t.defs@) =~= before.defs.push(d@));
        t
    } else {
        let c = name[pos];
        assert(rest[0] == c);
        assert(rest.drop_first() =~= name@.skip(pos + 1));
        let i = find_edge(&t.children, c);
        proof {
            lemma_edges_view(t.children@);
        }
        if i < t.children.len() {
            let ghost edges = t.children@;
            let (key, child) = t.children.remove(i);
            let grown = add_chars(child, name, pos + 1, d);
            t.children.insert(i, (key, grown));
            proof {
                lemma_edge_from(before.children, c, 0);
                lemma_edges_view(t.children@);
                assert(t.children@ =~= edges.update(i as int, (key, grown)));
                assert(edges_view(t.children@) =~= before.children.update(
                    i as int,
                    (c, grown@),
                ));
            }
            t
        } else {
            let fresh = Trie { children: Vec::new(), defs: Vec::new() };
            assert(fresh@ == empty_trie()) by {
                assert(defs_view(fresh.defs@) =~= Seq::<DefinitionView>::empty());
            }
            let grown = add_chars(fresh, name, pos + 1, d);
            let ghost edges = t.children@;
            t.children.push((c, grown));
            proof {
                lemma_edges_view(t.children@);
                assert(edges_view(t.children@) =~= before.children.push((c, grown@)));
            }
            t
        }
    }
}

/// Adds `d` to the tree `t` under the name `n`.
pub fn add_name(t: &mut Trie, n: &str, d: Definition)
    ensures
        final(t)@ == inserted(old(t)@, n@, d@),
        distinct_edges(old(t)@) ==> distinct_edges(final(t)@),
{
    proof {
        if distinct_edges(t@) {
            lemma_inserted_keeps_edges_distinct(t@, n@, d@);
        }
    }
    let name = chars_of(n);
    assert(name@.skip(0) =~= name@);
    let mut taken = Trie { children: Vec::new(), defs: Vec::new() };
    std::mem::swap(t, &mut taken);
    let grown = add_chars(taken, &name, 0, d);
    *t = grown;
}

/// The index of `ds`: each definition in the bucket of its arity, and each
/// one marked canonical in the prefix tree under its name.
pub fn bucket_sort(ds: Vec<(Definition, bool)>) -> (data: Data)
    ensures
        forall|k: int| 0 <= k < 7 ==> data.bucket(k) == bucket_of(entries_view(ds@), k),
        data.names@ == name_index(entries_view(ds@)),
        distinct_edges(data.names@),
{
    proof {
        name_index_has_distinct_edges(entries_view(ds@));
    }
    let ghost entries = entries_view(ds@);
    let mut data = empty_data();
    let mut i: usize = 0;
    proof {
        assert(entries.take(0) =~= Seq::<(DefinitionView, bool)>::empty());
    }
    while i < ds.len()
        invariant
            i <= ds.len(),
            entries == entries_view(ds@),
            forall|k: int| 0 <= k < 7 ==> data.bucket(k) == bucket_of(entries.take(i as int), k),
            data.names@ == name_index(entries.take(i as int)),
        decreases ds.len() - i,
    {
        let ghost before = data;
        let d = ds[i].0.clone();
        let canonical = ds[i].1;
        proof {
            assert(entries.take(i + 1).drop_last() =~= entries.take(i as int));
            assert(entries.take(i + 1).last() == (d@, canonical));
        }
        let n = d.args.len();
        proof {
            crate::types::lemma_args_view(d.args@);
        }
        if canonical {
            let name = d.name.clone();
            add_name(&mut data.names, name.as_str(), d.clone());
        }
        if n == 0 {
            bucket_drop(&mut data.ar0, d);
        } else if n == 1 {
            bucket_drop(&mut data.ar1, d);
        } else if n == 2 {
            bucket_drop(&mut data.ar2, d);
        } else if n == 3 {
            bucket_drop(&mut data.ar3, d);
        } else if n == 4 {
            bucket_drop(&mut data.ar4, d);
        } else if n == 5 {
            bucket_drop(&mut data.ar5, d);
        } else {
            bucket_drop(&mut data.arn, d);
        }
        proof {
            assert forall|k: int| 0 <= k < 7 implies data.bucket(k) == bucket_of(
                entries.take(i + 1),
                k,
            ) by {
                assert(before.bucket(k) == bucket_of(entries.take(i as int), k));
            }
        }
        i += 1;
    }
    assert(entries.take(ds.len() as int) =~= entries);
    data
}

/// A JSON document from the `json` crate. Nothing of it is read here but
/// through `json_value_of`.
#[verifier::external_type_specification]
#[verifier::external_body]
pub struct ExJsonValue(json::JsonValue);

/// A JSON document, as far as a catalog is read: numbers are known to be
/// numbers and no more.
#[derive(Debug)]
pub enum Json {
    Null,
    Boolean(bool),
    Number,
    Text(String),
    List(Vec<Json>),
    Object(Vec<(String, Json)>),
}

/// The mathematical value of a `Json`.
pub enum JsonView {
    Null,
    Boolean(bool),
    Number,
    Text(Seq<char>),
    List(Seq<JsonView>),
    Object(Seq<(Seq<char>, JsonView)>),
}

/// The value of a JSON document.
pub open spec fn json_view(j: Json) -> JsonView
    decreases j,
{
    match j {
        Json::Null => JsonView::Null,
        Json::Boolean(b) => JsonView::Boolean(b),
        Json::Number => JsonView::Number,
        Json::Text(s) => JsonView::Text(s@),
        Json::List(v) => JsonView::List(jsons_view(v@)),
        Json::Object(fs) => JsonView::Object(fields_view(fs@)),
    }
}

/// The values of a list of JSON documents.
pub open spec fn jsons_view(s: Seq<Json>) -> Seq<JsonView>
    decreases s,
{
    if s.len() == 0 {
        Seq::empty()
    } else {
        jsons_view(s.drop_last()).push(json_view(s.last()))
    }
}

/// The values of the fields of a JSON object.
pub open spec fn fields_view(s: Seq<(String, Json)>) -> Seq<(Seq<char>, JsonView)>
    decreases s,
{
    if s.len() == 0 {
        Seq::empty()
    } else {
        fields_view(s.drop_last()).push((s.last().0@, json_view(s.last().1)))
    }
}

impl View for Json {
    type V = JsonView;

    open spec fn view(&self) -> JsonView {
        json_view(*self)
    }
}

pub proof fn lemma_jsons_view(s: Seq<Json>)
    ensures
        jsons_view(s).len() == s.len(),
        forall|i: int| 0 <= i < s.len() ==> #[trigger] jsons_view(s)[i] == json_view(s[i]),
    decreases s.len(),
{
    if s.len() > 0 {
        lemma_jsons_view(s.drop_last());
    }
}

pub proof fn lemma_fields_view(s: Seq<(String, Json)>)
    ensures
        fields_view(s).len() == s.len(),
        forall|i: int|
            0 <= i < s.len() ==> #[trigger] fields_view(s)[i] == (s[i].0@, json_view(s[i].1)),
    decreases s.len(),
{
    if s.len() > 0 {
        lemma_fields_view(s.drop_last());
    }
}

/// What an outside JSON document holds.
pub uninterp spec fn json_content(v: json::JsonValue) -> JsonView;

/// What `json::parse` makes of a text: the document it holds, or, where the
/// text is not JSON, the line and column of the character that is out of
/// place, if that is what is wrong.
pub uninterp spec fn json_parsed(text: Seq<char>) -> Result<JsonView, Option<(nat, nat)>>;

/// The most digits in a row that a text may hold to be handed to the JSON
/// reader, which counts the digits of a fraction in sixteen bits.
pub const DIGIT_RUN_LIMIT: usize = 32767;

/// Whether `c` is an ASCII digit.
pub open spec fn is_digit(c: char) -> bool {
    '0' <= c && c <= '9'
}

/// How many digits stand in a row just before position `i`.
pub open spec fn digit_run(text: Seq<char>, i: int) -> nat
    decreases i,
{
    if 0 < i <= text.len() && is_digit(text[i - 1]) {
        1 + digit_run(text, i - 1)
    } else {
        0
    }
}

/// Whether `text` holds no more than `DIGIT_RUN_LIMIT` digits in a row.
pub open spec fn digit_runs_bounded(text: Seq<char>) -> bool {
    forall|i: int| 0 <= i <= text.len() ==> #[trigger] digit_run(text, i) <= DIGIT_RUN_LIMIT
}

/// Whether `text` holds no more than `DIGIT_RUN_LIMIT` digits in a row.
pub fn digit_runs_ok(text: &Vec<char>) -> (b: bool)
    ensures
        b == digit_runs_bounded(text@),
{
    let mut run: usize = 0;
    let mut i: usize = 0;
    while i < text.len()
        invariant
            i <= text.len(),
            run == digit_run(text@, i as int),
            run <= DIGIT_RUN_LIMIT,
            forall|k: int| 0 <= k <= i ==> #[trigger] digit_run(text@, k) <= DIGIT_RUN_LIMIT,
        decreases text.len() - i,
    {
        let c = text[i];
        if '0' <= c && c <= '9' {
            run += 1;
        } else {
            run = 0;
        }
        i += 1;
        if run > DIGIT_RUN_LIMIT {
            assert(digit_run(text@, i as int) > DIGIT_RUN_LIMIT);
            return false;
        }
    }
    true
}

/// The position that an outside failure names, as numbers.
pub open spec fn position_view(p: Option<(usize, usize)>) -> Option<(nat, nat)> {
    match p {
        Some((line, column)) => Some((line as nat, column as nat)),
        None => None,
    }
}

/// `json::parse` reads a text as JSON. What it returns depends on the text
/// alone: the document, or a failure, of which only the line and column of an
/// unexpected character are kept. Texts with longer runs of digits than
/// `DIGIT_RUN_LIMIT` are left out: on them the reader may overflow its count
/// of fraction digits.
#[verifier::external_body]
fn parse_json(text: &str) -> (r: Result<json::JsonValue, Option<(usize, usize)>>)
    requires
        digit_runs_bounded(text@),
    ensures
        match r {
            Ok(v) => json_parsed(text@) == Ok::<JsonView, Option<(nat, nat)>>(json_content(v)),
            Err(p) => json_parsed(text@) == Err::<JsonView, Option<(nat, nat)>>(position_view(p)),
        },
{
    json::parse(text).map_err(
        |e|
            match e {
                json::Error::UnexpectedCharacter { line, column, .. } => Some((line, column)),
                _ => None,
            },
    )
}

/// Copies an outside JSON document, one variant for one: both kinds of
/// string become `Text`, a number keeps no value, the fields of an object
/// keep their order.
#[verifier::external_body]
fn json_value_of(v: &json::JsonValue) -> (r: Json)
    ensures
        r@ == json_content(*v),
{
    match v {
        json::JsonValue::Null => Json::Null,
        json::JsonValue::Short(s) => Json::Text(s.as_str().to_string()),
        json::JsonValue::String(s) => Json::Text(s.clone()),
        json::JsonValue::Number(_) => Json::Number,
        json::JsonValue::Boolean(b) => Json::Boolean(*b),
        json::JsonValue::Object(o) => Json::Object(
            o.iter().map(|(k, x)| (k.to_string(), json_value_of(x))).collect(),
        ),
        json::JsonValue::Array(a) => Json::List(a.iter().map(json_value_of).collect()),
    }
}

/// The first position at or after `i` whose field is named `key`, or the
/// number of fields.
pub open spec fn field_from(fields: Seq<(Seq<char>, JsonView)>, key: Seq<char>, i: int) -> int
    decreases fields.len() - i,
{
    if 0 <= i < fields.len() && fields[i].0 != key {
        field_from(fields, key, i + 1)
    } else {
        i
    }
}

/// The text that the field `key` holds: `Ok(None)` where there is no such
/// field, a schema violation where it holds anything but text.
pub open spec fn field_text(fields: Seq<(Seq<char>, JsonView)>, key: Seq<char>) -> Result<
    Option<Seq<char>>,
    Error,
> {
    let i = field_from(fields, key, 0);
    if i >= fields.len() {
        Ok(None)
    } else {
        match fields[i].1 {
            JsonView::Text(s) => Ok(Some(s)),
            _ => Err(Error::SchemaViolation),
        }
    }
}

/// The text that the field `key` must hold: a schema violation where the
/// field is missing or holds anything but text.
pub open spec fn required_text(fields: Seq<(Seq<char>, JsonView)>, key: Seq<char>) -> Result<
    Seq<char>,
    Error,
> {
    match field_text(fields, key) {
        Ok(Some(s)) => Ok(s),
        _ => Err(Error::SchemaViolation),
    }
}

/// The renaming that gives every type variable the first letter.
pub open spec fn to_first_letter() -> spec_fn(Seq<char>) -> Seq<char> {
    |x: Seq<char>| letter(0)
}

/// The entry that one object of a catalog stands for: the definition it
/// describes, with its signature in canonical form, marked canonical. The
/// fields `type`, `name`, `path`, `anchor` and `desc` must hold text; `self`
/// may be missing, and must hold text where it is there.
pub open spec fn load_obj_spec(obj: JsonView) -> Result<Seq<(DefinitionView, bool)>, Error> {
    match obj {
        JsonView::Object(fields) => {
            let ty = required_text(fields, seq!['t', 'y', 'p', 'e']);
            let receiver = field_text(fields, seq!['s', 'e', 'l', 'f']);
            let name = required_text(fields, seq!['n', 'a', 'm', 'e']);
            let path = required_text(fields, seq!['p', 'a', 't', 'h']);
            let anchor = required_text(fields, seq!['a', 'n', 'c', 'h', 'o', 'r']);
            let desc = required_text(fields, seq!['d', 'e', 's', 'c']);
            if ty is Err || receiver is Err || name is Err || path is Err || anchor is Err
                || desc is Err {
                Err(Error::SchemaViolation)
            } else {
                match signature_spec(ty->Ok_0, receiver->Ok_0, true) {
                    Err(e) => Err(e),
                    Ok((args, ret, n)) => Ok(
                        seq![
                            (
                                DefinitionView {
                                    name: name->Ok_0,
                                    path: path->Ok_0,
                                    anchor: anchor->Ok_0,
                                    desc: desc->Ok_0,
                                    args: args,
                                    ret: ret,
                                    signature: ty->Ok_0,
                                },
                                true,
                            ),
                        ],
                    ),
                }
            }
        },
        _ => Err(Error::SchemaViolation),
    }
}

/// The variant of `d` in which all type variables are one: every variable of
/// its arguments and of its return type is named by the first letter.
pub open spec fn merged(d: DefinitionView) -> DefinitionView {
    DefinitionView {
        args: rename_all(d.args, to_first_letter()),
        ret: rename_vars(d.ret, to_first_letter()),
        ..d
    }
}

/// The entries that the objects `items` stand for, or the first failure.
pub open spec fn load_all_spec(items: Seq<JsonView>) -> Result<Seq<(DefinitionView, bool)>, Error>
    decreases items.len(),
{
    if items.len() == 0 {
        Ok(Seq::empty())
    } else {
        match load_all_spec(items.drop_last()) {
            Err(e) => Err(e),
            Ok(front) => match load_obj_spec(items.last()) {
                Err(e) => Err(e),
                Ok(more) => Ok(front + more),
            },
        }
    }
}

/// The entries of a catalog: it must be a list of objects.
pub open spec fn catalog_spec(json: JsonView) -> Result<Seq<(DefinitionView, bool)>, Error> {
    match json {
        JsonView::List(items) => load_all_spec(items),
        _ => Err(Error::SchemaViolation),
    }
}

/// The text that the field `key` of `fields` holds.
fn text_field(fields: &Vec<(String, Json)>, key: &str) -> (r: Result<Option<String>, Error>)
    ensures
        match r {
            Ok(Some(s)) => field_text(fields_view(fields@), key@) == Ok::<
                Option<Seq<char>>,
                Error,
            >(Some(s@)),
            Ok(None) => field_text(fields_view(fields@), key@) == Ok::<Option<Seq<char>>, Error>(
                None,
            ),
            Err(e) => field_text(fields_view(fields@), key@) == Err::<Option<Seq<char>>, Error>(e),
        },
{
    let ghost view = fields_view(fields@);
    proof {
        lemma_fields_view(fields@);
    }
    let wanted = chars_of(key);
    let mut i: usize = 0;
    while i < fields.len() && !crate::text::same_text(&chars_of(fields[i].0.as_str()), &wanted)
        invariant
            i <= fields.len(),
            wanted@ == key@,
            view == fields_view(fields@),
            view.len() == fields.len(),
            forall|k: int|
                0 <= k < fields.len() ==> #[trigger] view[k] == (
                    fields@[k].0@,
                    json_view(fields@[k].1),
                ),
            field_from(view, key@, 0) == field_from(view, key@, i as int),
        decreases fields.len() - i,
    {
        i += 1;
    }
    if i >= fields.len() {
        Ok(None)
    } else {
        match &fields[i].1 {
            Json::Text(s) => Ok(Some(s.clone())),
            _ => Err(Error::SchemaViolation),
        }
    }
}

/// `a` with every type variable named by the first letter.
fn collapse_arg(a: &Arg) -> (r: Arg)
    ensures
        r@ == rename_vars(a@, to_first_letter()),
    decreases a, 0nat,
{
    match a {
        Arg::Basic(n) => Arg::Basic(n.clone()),
        Arg::Parametric(b, ps) => Arg::Parametric(Box::new(collapse_arg(b)), collapse_args(ps)),
        Arg::Tuple(es) => Arg::Tuple(collapse_args(es)),
        Arg::Vec(e) => Arg::Vec(Box::new(collapse_arg(e))),
        Arg::Constrained(n, cs) => match letters(0) {
            Ok(first) => Arg::Constrained(first, clone_constraints(cs)),
            Err(_) => Arg::Constrained(n.clone(), clone_constraints(cs)),
        },
        Arg::Function(xs, t) => Arg::Function(collapse_args(xs), Box::new(collapse_arg(t))),
    }
}

/// Each expression of `v` with every type variable named by the first letter.
fn collapse_args(v: &Vec<Arg>) -> (r: Vec<Arg>)
    ensures
        args_view(r@) == rename_all(args_view(v@), to_first_letter()),
    decreases v, 1nat,
{
    let mut r: Vec<Arg> = Vec::new();
    let mut i: usize = 0;
    while i < v.len()
        invariant
            i <= v.len(),
            r.len() == i,
            forall|k: int|
                0 <= k < i ==> arg_view(r@[k]) == rename_vars(arg_view(v@[k]), to_first_letter()),
        decreases v.len() - i,
    {
        r.push(collapse_arg(&v[i]));
        i += 1;
    }
    proof {
        lemma_args_view(r@);
        lemma_args_view(v@);
        lemma_rename_all(args_view(v@), to_first_letter());
        assert(args_view(r@) =~= rename_all(args_view(v@), to_first_letter()));
    }
    r
}

/// What a load of entries returned, as a value.
pub open spec fn entries_result(r: Result<Vec<(Definition, bool)>, Error>) -> Result<
    Seq<(DefinitionView, bool)>,
    Error,
> {
    match r {
        Ok(v) => Ok(entries_view(v@)),
        Err(e) => Err(e),
    }
}

/// Reads one object of a catalog: the definition it describes.
pub fn load_obj(obj: &Json) -> (r: Result<Vec<(Definition, bool)>, Error>)
    ensures
        entries_result(r) == load_obj_spec(obj@),
{
    proof {
        reveal_strlit("type");
        reveal_strlit("self");
        reveal_strlit("name");
        reveal_strlit("path");
        reveal_strlit("anchor");
        reveal_strlit("desc");
        assert("type"@ =~= seq!['t', 'y', 'p', 'e']);
        assert("self"@ =~= seq!['s', 'e', 'l', 'f']);
        assert("name"@ =~= seq!['n', 'a', 'm', 'e']);
        assert("path"@ =~= seq!['p', 'a', 't', 'h']);
        assert("anchor"@ =~= seq!['a', 'n', 'c', 'h', 'o', 'r']);
        assert("desc"@ =~= seq!['d', 'e', 's', 'c']);
    }
    match obj {
        Json::Object(fields) => {
            let ty = text_field(fields, "type");
            let receiver = text_field(fields, "self");
            let name = text_field(fields, "name");
            let path = text_field(fields, "path");
            let anchor = text_field(fields, "anchor");
            let desc = text_field(fields, "desc");
            match (ty, receiver, name, path, anchor, desc) {
                (Ok(Some(ty)), Ok(receiver), Ok(Some(name)), Ok(Some(path)), Ok(Some(anchor)), Ok(
                    Some(desc),
                )) => {
                    let parsed = match &receiver {
                        Some(s) => parse_signature(ty.as_str(), Some(s.as_str()), true),
                        None => parse_signature(ty.as_str(), None, true),
                    };
                    match parsed {
                        Err(e) => Err(e),
                        Ok((args, ret, _n)) => {
                            let mut out: Vec<(Definition, bool)> = Vec::new();
                            let canonical = Definition {
                                name,
                                path,
                                anchor,
                                desc,
                                args,
                                ret,
                                signature: ty,
                            };
                            out.push((canonical, true));
                            assert(entries_view(out@) =~= seq![(canonical@, true)]);
                            Ok(out)
                        },
                    }
                },
                _ => Err(Error::SchemaViolation),
            }
        },
        _ => Err(Error::SchemaViolation),
    }
}

/// The variant of `d` that answers queries in which all type variables are
/// one: a copy of `d` with every type variable named by the first letter. It
/// is meant for the buckets only, so it is entered without the canonical mark.
pub fn merged_variant(d: &Definition) -> (v: Definition)
    ensures
        v@ == merged(d@),
{
    Definition {
        name: d.name.clone(),
        path: d.path.clone(),
        anchor: d.anchor.clone(),
        desc: d.desc.clone(),
        args: collapse_args(&d.args),
        ret: collapse_arg(&d.ret),
        signature: d.signature.clone(),
    }
}

/// Reads a catalog: a list of objects, each read by `load_obj`.
pub fn load_entries(json: &Json) -> (r: Result<Vec<(Definition, bool)>, Error>)
    ensures
        entries_result(r) == catalog_spec(json@),
{
    match json {
        Json::List(items) => {
            let ghost all = jsons_view(items@);
            let mut out: Vec<(Definition, bool)> = Vec::new();
            let mut i: usize = 0;
            proof {
                lemma_jsons_view(items@);
                assert(all.take(0) =~= Seq::<JsonView>::empty());
                assert(entries_view(out@) =~= Seq::<(DefinitionView, bool)>::empty());
            }
            while i < items.len()
                invariant
                    i <= items.len(),
                    all == jsons_view(items@),
                    all.len() == items.len(),
                    json@ == JsonView::List(all),
                    forall|k: int| 0 <= k < items.len() ==> #[trigger] all[k] == json_view(items@[k]),
                    load_all_spec(all.take(i as int)) == Ok::<Seq<(DefinitionView, bool)>, Error>(
                        entries_view(out@),
                    ),
                decreases items.len() - i,
            {
                proof {
                    assert(all.take(i + 1).drop_last() =~= all.take(i as int));
                    assert(all.take(i + 1).last() == items@[i as int]@);
                }
                match load_obj(&items[i]) {
                    Err(e) => {
                        proof {
                            assert(load_obj_spec(all.take(i + 1).last()) is Err);
                            assert(load_all_spec(all.take(i + 1)) == Err::<
                                Seq<(DefinitionView, bool)>,
                                Error,
                            >(e));
                            lemma_load_all_fails(all, i + 1, items.len() as int);
                            assert(all.take(items.len() as int) =~= all);
                            assert(load_all_spec(all) == Err::<Seq<(DefinitionView, bool)>, Error>(
                                e,
                            ));
                            assert(json@ == JsonView::List(all));
                        }
                        return Err(e);
                    },
                    Ok(mut more) => {
                        let ghost before = entries_view(out@);
                        let ghost added = entries_view(more@);
                        out.append(&mut more);
                        assert(entries_view(out@) =~= before + added);
                    },
                }
                i += 1;
            }
            assert(all.take(items.len() as int) =~= all);
            Ok(out)
        },
        _ => Err(Error::SchemaViolation),
    }
}

/// Once the reading of a catalog has failed, that failure is the result.
pub proof fn lemma_load_all_fails(all: Seq<JsonView>, i: int, k: int)
    requires
        0 <= i <= k <= all.len(),
        load_all_spec(all.take(i)) is Err,
    ensures
        load_all_spec(all.take(k)) == load_all_spec(all.take(i)),
    decreases k - i,
{
    if i < k {
        lemma_load_all_fails(all, i, k - 1);
        assert(all.take(k).drop_last() =~= all.take(k - 1));
    }
}

/// What the text of a catalog stands for: its entries, or why it has none. A
/// text that is not JSON, or that holds more digits in a row than the JSON
/// reader is given, violates the schema.
pub open spec fn load_spec(text: Seq<char>) -> Result<Seq<(DefinitionView, bool)>, Error> {
    if !digit_runs_bounded(text) {
        Err(Error::SchemaViolation)
    } else {
        match json_parsed(text) {
            Ok(json) => catalog_spec(json),
            Err(_) => Err(Error::SchemaViolation),
        }
    }
}

/// Builds the index from the text of a catalog.
pub fn load(text: &str) -> (r: Result<Data, Error>)
    ensures
        match r {
            Ok(data) => load_spec(text@) matches Ok(entries) && (forall|k: int|
                0 <= k < 7 ==> data.bucket(k) == bucket_of(entries, k)) && data.names@
                == name_index(entries),
            Err(e) => load_spec(text@) == Err::<Seq<(DefinitionView, bool)>, Error>(e),
        },
{
    if !digit_runs_ok(&chars_of(text)) {
        return Err(Error::SchemaViolation);
    }
    match parse_json(text) {
        Err(_) => Err(Error::SchemaViolation),
        Ok(value) => {
            let json = json_value_of(&value);
            match load_entries(&json) {
                Err(e) => Err(e),
                Ok(entries) => Ok(bucket_sort(entries)),
            }
        },
    }
}

/// Where the text of a catalog stops being JSON: the line and column of the
/// character that is out of place, where the JSON reader names one.
pub fn syntax_error_at(text: &str) -> (r: Option<(usize, usize)>)
    ensures
        match r {
            Some(p) => digit_runs_bounded(text@) && json_parsed(text@) == Err::<
                JsonView,
                Option<(nat, nat)>,
            >(position_view(Some(p))),
            None => !digit_runs_bounded(text@) || json_parsed(text@) is Ok || json_parsed(text@)
                == Err::<JsonView, Option<(nat, nat)>>(None),
        },
{
    if !digit_runs_ok(&chars_of(text)) {
        return None;
    }
    match parse_json(text) {
        Err(p) => p,
        Ok(_) => None,
    }
}

} // verus!
