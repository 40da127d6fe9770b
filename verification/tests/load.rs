use rustle::load::{
    bucket_sort, digit_runs_ok, load, load_entries, load_obj, merged_variant, syntax_error_at, Json,
};
use rustle::query::{run_search, search_name};
use rustle::types::{map_constrained, traverse_constrained, Arg, Constraint, Error};
use rustle::web::{format_def, strip_brackets};

fn basic(name: &str) -> Arg {
    Arg::Basic(name.to_string())
}

fn var(name: &str) -> Arg {
    Arg::Constrained(name.to_string(), vec![])
}

fn text(s: &str) -> Json {
    Json::Text(s.to_string())
}

fn object(fields: &[(&str, &str)]) -> Json {
    Json::Object(fields.iter().map(|(k, v)| (k.to_string(), text(v))).collect())
}

const CATALOG: &str = r#"[
  {"type": "fn foo() -> int", "name": "foo", "path": "core", "anchor": "function-foo",
   "desc": "foo does bar", "self": ""},
  {"type": "fn swap(a: T, b: U) -> (U, T)", "name": "swap", "path": "core::util",
   "anchor": "function-swap", "desc": "swaps <them>"}
]"#;

#[test]
fn a_catalog_is_loaded_and_searched() {
    let data = load(CATALOG).unwrap();
    let found = run_search("() -> int", &data).unwrap();
    assert_eq!(found.len(), 1);
    assert_eq!(found[0].name, "foo");
    assert_eq!(found[0].show(), "core::foo - fn foo() -> int - foo does bar");
    assert_eq!(search_name("fo", &data), found);
    assert_eq!(search_name("bar", &data), vec![]);
    assert_eq!(data.ar2.defs.len(), 1);
    assert_eq!(data.ar2.defs[0].args, vec![var("A"), var("B")]);
    assert_eq!(data.ar2.defs[0].ret, Arg::Tuple(vec![var("B"), var("A")]));
    assert_eq!(search_name("swap", &data).len(), 1);
    assert_eq!(run_search("(X, X) -> (X, X)", &data), Ok(vec![]));
    assert_eq!(run_search("(X, Y) -> (Y, X)", &data).unwrap()[0].name, "swap");
}

#[test]
fn a_catalog_must_be_a_list_of_objects_of_text() {
    assert_eq!(load("{}").err(), Some(Error::SchemaViolation));
    assert_eq!(load("[1]").err(), Some(Error::SchemaViolation));
    assert_eq!(load("[").err(), Some(Error::SchemaViolation));
    assert_eq!(load("not json").err(), Some(Error::SchemaViolation));
    assert_eq!(
        load(r#"[{"type": "fn f()", "name": 3, "path": "p", "anchor": "a", "desc": "d"}]"#).err(),
        Some(Error::SchemaViolation)
    );
    assert_eq!(
        load(r#"[{"type": "fn f()", "name": "f", "path": "p", "anchor": "a"}]"#).err(),
        Some(Error::SchemaViolation)
    );
    assert_eq!(
        load(r#"[{"type": "fn f()", "name": "f", "path": "p", "anchor": "a", "desc": "d", "self": 1}]"#)
            .err(),
        Some(Error::SchemaViolation)
    );
    assert!(load("[]").is_ok());
}

#[test]
fn a_signature_that_does_not_parse_fails_the_load() {
    assert_eq!(
        load(r#"[{"type": "fn f", "name": "f", "path": "p", "anchor": "a", "desc": "d"}]"#).err(),
        Some(Error::MalformedSignature)
    );
    assert_eq!(
        load(r#"[{"type": "fn f(a: [int)", "name": "f", "path": "p", "anchor": "a", "desc": "d"}]"#)
            .err(),
        Some(Error::MalformedType)
    );
}

#[test]
fn an_object_gives_its_definition_and_the_receiver_comes_first() {
    let obj = object(&[
        ("type", "fn ne(other: & ~str) -> bool"),
        ("self", "& str"),
        ("name", "ne"),
        ("path", "core::str"),
        ("anchor", "method-ne"),
        ("desc", "not equal"),
    ]);
    let entries = load_obj(&obj).unwrap();
    assert_eq!(entries.len(), 1);
    assert!(entries[0].1);
    assert_eq!(entries[0].0.args, vec![basic("str"), basic("str")]);
    assert_eq!(entries[0].0.ret, basic("bool"));
    assert_eq!(entries[0].0.signature, "fn ne(other: & ~str) -> bool");
    assert_eq!(load_obj(&text("x")), Err(Error::SchemaViolation));
    assert_eq!(load_entries(&Json::Null), Err(Error::SchemaViolation));
    assert_eq!(load_entries(&Json::List(vec![obj, Json::Number])), Err(Error::SchemaViolation));
}

#[test]
fn brackets_are_escaped_and_definitions_are_linked() {
    assert_eq!(strip_brackets("Option<A> -> A"), "Option&lt;A&gt; -&gt; A");
    assert_eq!(strip_brackets("plain"), "plain");
    let data = load(CATALOG).unwrap();
    let swap = &search_name("swap", &data)[0];
    assert_eq!(
        format_def(swap),
        "<a href='http://dl.rust-lang.org/doc/core/util.html#function-swap' \
         target='blank'>core::util::swap</a> - fn swap(a: T, b: U) -&gt; (U, T) - swaps &lt;them&gt;"
    );
}

#[test]
fn variables_are_visited_and_mapped_in_order() {
    let a = Arg::Function(
        vec![Arg::Parametric(Box::new(basic("Map")), vec![var("K"), var("V")])],
        Box::new(Arg::Tuple(vec![var("V"), basic("int"), var("K")])),
    );
    let mut names = vec!["x".to_string()];
    traverse_constrained(&a, &mut names);
    assert_eq!(names, vec!["x", "K", "V", "V", "K"]);
    let lower = |n: &String, cs: &Vec<Constraint>| Arg::Constrained(n.to_lowercase(), cs.clone());
    assert_eq!(
        map_constrained(&a, &lower),
        Arg::Function(
            vec![Arg::Parametric(Box::new(basic("Map")), vec![var("k"), var("v")])],
            Box::new(Arg::Tuple(vec![var("v"), basic("int"), var("k")])),
        )
    );
}

#[test]
fn a_merged_variant_answers_queries_with_one_variable() {
    let obj = object(&[
        ("type", "fn swap(a: T, b: U) -> (U, T)"),
        ("name", "swap"),
        ("path", "core::util"),
        ("anchor", "function-swap"),
        ("desc", ""),
    ]);
    let entries = load_obj(&obj).unwrap();
    assert_eq!(entries.len(), 1);
    let swap = entries[0].0.clone();
    let variant = merged_variant(&swap);
    assert_eq!(variant.args, vec![var("A"), var("A")]);
    assert_eq!(variant.ret, Arg::Tuple(vec![var("A"), var("A")]));
    assert_eq!(variant.name, "swap");
    assert_eq!(variant.signature, swap.signature);
    let data = bucket_sort(vec![(swap, true), (variant.clone(), false)]);
    assert_eq!(run_search("(X, X) -> (X, X)", &data), Ok(vec![variant]));
    assert_eq!(search_name("swap", &data).len(), 1);
}

#[test]
fn long_runs_of_digits_are_refused_before_they_are_read() {
    let long = format!("[0.{}]", "0".repeat(40000));
    assert_eq!(load(&long).err(), Some(Error::SchemaViolation));
    assert_eq!(syntax_error_at(&long), None);
    let at_limit: Vec<char> = "9".repeat(32767).chars().collect();
    assert!(digit_runs_ok(&at_limit));
    let over: Vec<char> = "9".repeat(32768).chars().collect();
    assert!(!digit_runs_ok(&over));
    let broken: Vec<char> = format!("{}x{}", "1".repeat(30000), "2".repeat(30000)).chars().collect();
    assert!(digit_runs_ok(&broken));
    let short = format!("[0.{}]", "0".repeat(100));
    assert_eq!(load(&short).err(), Some(Error::SchemaViolation));
}

#[test]
fn a_text_that_is_not_json_has_a_position() {
    assert_eq!(syntax_error_at("[\n  {\"a\" 1}\n]"), Some((2, 8)));
    assert_eq!(syntax_error_at("[]"), None);
    assert_eq!(syntax_error_at("["), None);
}
