use rustle::load::{add_name, bucket_sort};
use rustle::query::{
    generalize_queries, query, run_search, search_bucket, search_name, search_trie, search_type,
};
use rustle::types::{Arg, Bucket, Definition, Error, Query, Trie};

fn basic(name: &str) -> Arg {
    Arg::Basic(name.to_string())
}

fn var(name: &str) -> Arg {
    Arg::Constrained(name.to_string(), vec![])
}

fn foo() -> Definition {
    Definition {
        name: "foo".to_string(),
        path: "foo".to_string(),
        desc: "".to_string(),
        anchor: "function-foo".to_string(),
        args: vec![],
        ret: basic("()"),
        signature: "fn foo()".to_string(),
    }
}

fn def(name: &str, args: Vec<Arg>, ret: Arg) -> Definition {
    Definition {
        name: name.to_string(),
        path: "core".to_string(),
        desc: "".to_string(),
        anchor: "".to_string(),
        args,
        ret,
        signature: "".to_string(),
    }
}

#[test]
fn test_search_bucket() {
    let def = foo();
    let bucket = Bucket { defs: vec![def.clone()] };
    let query = Query { args: vec![], ret: def.ret.clone() };
    assert_eq!(search_bucket(&bucket, &query), vec![def.clone()]);

    let query2 = Query { args: vec![def.ret.clone()], ret: def.ret.clone() };
    assert_eq!(search_bucket(&bucket, &query2), vec![]);
}

#[test]
fn test_search_trie() {
    let def = foo();
    let trie = Trie { children: vec![], defs: vec![def.clone()] };
    let mut r = vec![];
    search_trie(&trie, "", "fo", &mut r);
    assert_eq!(r, vec![def.clone()]);

    let trie2 = Trie { children: vec![('f', trie)], defs: vec![] };
    r = vec![];
    search_trie(&trie2, "f", "fo", &mut r);
    assert_eq!(r, vec![def.clone()]);

    r = vec![];
    search_trie(&trie2, "a", "fo", &mut r);
    assert_eq!(r, vec![]);
}

#[test]
fn test_generalize_queries() {
    let args = vec![var("A"), basic("str"), var("A")];
    let ret = var("A");
    let mut queries = vec![];
    generalize_queries(&args, &ret, 1, &mut queries);
    assert_eq!(queries, vec![Query { args: vec![var("A"), var("B"), var("A")], ret: var("A") }]);
}

#[test]
fn matching_ignores_the_order_of_arguments() {
    let d = def("f", vec![var("A"), var("B")], basic("int"));
    let bucket = Bucket { defs: vec![d.clone()] };
    let swapped = Query { args: vec![var("B"), var("A")], ret: basic("int") };
    assert_eq!(search_bucket(&bucket, &swapped), vec![d.clone()]);
    let other_ret = Query { args: vec![var("B"), var("A")], ret: basic("uint") };
    assert_eq!(search_bucket(&bucket, &other_ret), vec![]);
}

#[test]
fn repeated_arguments_match_as_a_set_but_not_across_arities() {
    let twice = def("f", vec![var("A"), var("A")], basic("int"));
    let bucket = Bucket { defs: vec![twice.clone()] };
    let once = Query { args: vec![var("A")], ret: basic("int") };
    assert_eq!(search_bucket(&bucket, &once), vec![twice.clone()]);

    let data = bucket_sort(vec![(twice.clone(), true)]);
    assert_eq!(search_type(vec![once], &data), vec![]);
    let same = Query { args: vec![var("A"), var("A")], ret: basic("int") };
    assert_eq!(search_type(vec![same], &data), vec![twice]);
}

#[test]
fn seven_arguments_go_to_the_last_bucket() {
    let seven = def("g", vec![basic("a"); 7], basic("int"));
    let data = bucket_sort(vec![(seven.clone(), true)]);
    assert_eq!(data.arn.defs, vec![seven.clone()]);
    assert!(data.ar0.defs.is_empty());
    assert!(data.ar1.defs.is_empty());
    assert!(data.ar2.defs.is_empty());
    assert!(data.ar3.defs.is_empty());
    assert!(data.ar4.defs.is_empty());
    assert!(data.ar5.defs.is_empty());
    let six = Query { args: vec![basic("a"); 6], ret: basic("int") };
    assert_eq!(search_type(vec![six], &data), vec![seven.clone()]);
    let five = Query { args: vec![basic("a"); 5], ret: basic("int") };
    assert_eq!(search_type(vec![five], &data), vec![]);
}

#[test]
fn a_bucket_returns_ten_matches_at_most() {
    let mut defs = vec![];
    for i in 0..12 {
        defs.push(def(&format!("f{}", i), vec![], basic("int")));
    }
    let bucket = Bucket { defs: defs.clone() };
    let q = Query { args: vec![], ret: basic("int") };
    let found = search_bucket(&bucket, &q);
    assert_eq!(found.len(), 10);
    assert_eq!(found, defs[..10].to_vec());
}

#[test]
fn queries_are_generalized_up_to_the_limit() {
    let qs = query("(int, str) -> bool").unwrap();
    assert_eq!(qs.len(), 5);
    assert_eq!(qs[0], Query { args: vec![basic("int"), basic("str")], ret: basic("bool") });
    assert_eq!(qs[1], Query { args: vec![var("A"), basic("str")], ret: basic("bool") });
    assert_eq!(qs[2], Query { args: vec![var("A"), var("B")], ret: basic("bool") });
    assert_eq!(qs[3], Query { args: vec![var("A"), var("B")], ret: var("C") });
    assert_eq!(qs[4], Query { args: vec![var("A"), basic("str")], ret: var("B") });
}

#[test]
fn a_query_without_type_names_stands_alone() {
    let qs = query("(T) -> T").unwrap();
    assert_eq!(qs, vec![Query { args: vec![var("A")], ret: var("A") }]);
    assert_eq!(query("T -> T"), Err(Error::MalformedSignature));
}

#[test]
fn names_are_found_by_prefix() {
    let mut trie = Trie { children: vec![], defs: vec![] };
    let each = def("each", vec![], basic("int"));
    let eachi = def("eachi", vec![], basic("int"));
    let map = def("map", vec![], basic("int"));
    add_name(&mut trie, "each", each.clone());
    add_name(&mut trie, "map", map.clone());
    add_name(&mut trie, "eachi", eachi.clone());
    assert_eq!(trie.children.len(), 2);
    let mut r = vec![];
    search_trie(&trie, "ea", "ea", &mut r);
    assert_eq!(r, vec![each.clone(), eachi.clone()]);
    r = vec![];
    search_trie(&trie, "", "a", &mut r);
    assert_eq!(r, vec![each, eachi, map]);
}

#[test]
fn one_definition_is_found_by_type_and_by_name() {
    let d = Definition {
        name: "foo".to_string(),
        path: "core".to_string(),
        anchor: "function-foo".to_string(),
        desc: "".to_string(),
        args: vec![],
        ret: basic("int"),
        signature: "fn foo() -> int".to_string(),
    };
    let data = bucket_sort(vec![(d.clone(), true)]);
    assert_eq!(search_type(query("() -> int").unwrap(), &data), vec![d.clone()]);
    assert_eq!(search_name("fo", &data), vec![d.clone()]);
    assert_eq!(search_name("bar", &data), vec![]);
    assert_eq!(run_search("() -> int", &data), Ok(vec![d.clone()]));
    assert_eq!(run_search("fo", &data), Ok(vec![d.clone()]));
    assert_eq!(run_search("bar", &data), Ok(vec![]));
    assert_eq!(run_search("a, b", &data), Err(Error::MalformedSignature));
}

#[test]
fn generated_variants_are_not_indexed_by_name() {
    let d = def("foo", vec![var("A"), var("A")], var("A"));
    let data = bucket_sort(vec![(d.clone(), false)]);
    assert_eq!(search_name("foo", &data), vec![]);
    assert_eq!(data.ar2.defs, vec![d]);
}

#[test]
fn a_name_search_finds_the_names_that_begin_with_the_request() {
    let names = ["each", "eachi", "map", "mapi", "reach", "e"];
    let entries: Vec<(Definition, bool)> = names
        .iter()
        .map(|n| (def(n, vec![], basic("int")), *n != "mapi"))
        .collect();
    let data = bucket_sort(entries);
    for q in ["", "e", "ea", "each", "eachi", "m", "map", "mapi", "r", "x", "ach"] {
        let mut found: Vec<String> = search_name(q, &data).into_iter().map(|d| d.name).collect();
        found.sort();
        let mut expected: Vec<String> = names
            .iter()
            .filter(|n| n.starts_with(q) && **n != "mapi")
            .map(|n| n.to_string())
            .collect();
        expected.sort();
        assert_eq!(found, expected, "request {:?}", q);
    }
}
