use rustle::parse::{drop_modifiers, parse_arg, split_arguments, trim_parens, trim_sigils};
use rustle::types::Arg;

fn basic(name: &str) -> Arg {
    Arg::Basic(name.to_string())
}

fn var(name: &str) -> Arg {
    Arg::Constrained(name.to_string(), vec![])
}

#[test]
fn test_split_arguments() {
    assert_eq!(split_arguments("uint, ~str"), vec!["uint", "~str"]);
    assert_eq!(split_arguments("uint, ~str, int"), vec!["uint", "~str", "int"]);
    assert_eq!(split_arguments("uint, Type<A,B>"), vec!["uint", "Type<A,B>"]);
    assert_eq!(split_arguments("uint, Type<(C,D),B>"), vec!["uint", "Type<(C,D),B>"]);
}

#[test]
fn test_parse_arg() {
    assert_eq!(parse_arg("~str"), Ok(basic("str")));
    assert_eq!(parse_arg("@str"), Ok(basic("str")));
    assert_eq!(parse_arg("&@str"), Ok(basic("str")));
    assert_eq!(
        parse_arg("Option<~str>"),
        Ok(Arg::Parametric(Box::new(basic("Option")), vec![basic("str")]))
    );
    assert_eq!(parse_arg("~[uint]"), Ok(Arg::Vec(Box::new(basic("uint")))));
    assert_eq!(parse_arg("(uint, ~str)"), Ok(Arg::Tuple(vec![basic("uint"), basic("str")])));
}

#[test]
fn test_drop_modifiers() {
    assert_eq!(drop_modifiers("const hello"), "hello");
    assert_eq!(drop_modifiers("mut hello"), "hello");
    assert_eq!(drop_modifiers("hello"), "hello");
}

#[test]
fn test_trim_parens() {
    assert_eq!(trim_parens("(hello)"), "hello");
    assert_eq!(trim_parens("  (   hello)"), "hello");
    assert_eq!(trim_parens("  (   hello )  "), "hello");
}

#[test]
fn test_trim_nested_parens() {
    assert_eq!(trim_parens("(hello, (A,B))"), "hello, (A,B)");
}

#[test]
fn test_trim_sigils() {
    assert_eq!(trim_sigils("~str"), "str");
    assert_eq!(trim_sigils("@str"), "str");
    assert_eq!(trim_sigils("str"), "str");
    assert_eq!(trim_sigils("& str"), "str");
}

#[test]
fn parse_arg_reads_type_variables_and_generics() {
    assert_eq!(
        parse_arg("Option<A>"),
        Ok(Arg::Parametric(Box::new(basic("Option")), vec![var("A")]))
    );
    assert_eq!(parse_arg("[uint]"), Ok(Arg::Vec(Box::new(basic("uint")))));
    assert_eq!(parse_arg("(uint, str)"), Ok(Arg::Tuple(vec![basic("uint"), basic("str")])));
}

use rustle::canon::canonicalize_args;
use rustle::parse::{parse_signature, replace_arg};
use rustle::types::Error;

fn option_of(a: Arg) -> Arg {
    Arg::Parametric(Box::new(basic("Option")), vec![a])
}

#[test]
fn test_canonicalize_args() {
    assert_eq!(
        canonicalize_args(vec![basic("str"), basic("str")], basic("str")),
        Ok((vec![basic("str"), basic("str")], basic("str"), 0))
    );
    assert_eq!(
        canonicalize_args(vec![var("T"), basic("str")], basic("str")),
        Ok((vec![var("A"), basic("str")], basic("str"), 1))
    );
    assert_eq!(
        canonicalize_args(vec![var("T"), basic("str")], var("T")),
        Ok((vec![var("A"), basic("str")], var("A"), 1))
    );
    assert_eq!(
        canonicalize_args(vec![var("T"), basic("str"), var("T")], var("T")),
        Ok((vec![var("A"), basic("str"), var("A")], var("A"), 1))
    );
    assert_eq!(
        canonicalize_args(vec![var("T"), var("U"), var("U")], var("U")),
        Ok((vec![var("B"), var("A"), var("A")], var("A"), 2))
    );
}

#[test]
fn test_canonicalize_parameterized_args() {
    assert_eq!(
        canonicalize_args(vec![option_of(var("T"))], var("T")),
        Ok((vec![option_of(var("A"))], var("A"), 1))
    );
}

#[test]
fn test_canonicalize_vector_args() {
    assert_eq!(
        canonicalize_args(vec![Arg::Vec(Box::new(var("T")))], var("T")),
        Ok((vec![Arg::Vec(Box::new(var("A")))], var("A"), 1))
    );
}

#[test]
fn test_canonicalize_tuple_args() {
    assert_eq!(
        canonicalize_args(vec![Arg::Tuple(vec![var("T")])], var("T")),
        Ok((vec![Arg::Tuple(vec![var("A")])], var("A"), 1))
    );
}

#[test]
fn test_replace_arg_name() {
    let a = var("T");
    assert_eq!(replace_arg(&a, &var("T"), &var("U")), var("U"));
    assert_eq!(replace_arg(&a, &var("V"), &var("U")), var("T"));

    let b = Arg::Parametric(Box::new(var("T")), vec![var("T")]);
    assert_eq!(
        replace_arg(&b, &var("T"), &var("U")),
        Arg::Parametric(Box::new(var("U")), vec![var("U")])
    );

    let b = Arg::Parametric(Box::new(var("V")), vec![var("T")]);
    assert_eq!(
        replace_arg(&b, &var("T"), &var("U")),
        Arg::Parametric(Box::new(var("V")), vec![var("U")])
    );
}

#[test]
fn test_load_args() {
    assert_eq!(
        parse_signature("fn ne(other: & ~str) -> bool", Some("& str"), true),
        Ok((vec![basic("str"), basic("str")], basic("bool"), 0))
    );
    assert_eq!(
        parse_signature("fn foo(bar: Option<T>) -> bool", None, true),
        Ok((vec![option_of(var("A"))], basic("bool"), 1))
    );
}

#[test]
fn canonical_form_does_not_depend_on_spelling() {
    let one = parse_signature("(T, U) -> U", None, true);
    let two = parse_signature("(A, B) -> B", None, true);
    let three = parse_signature("(X, Y) -> Y", None, true);
    assert_eq!(one, two);
    assert_eq!(one, three);
    assert_eq!(one, Ok((vec![var("B"), var("A")], var("A"), 2)));
}

#[test]
fn ties_go_to_the_variable_that_occurs_first() {
    let once = canonicalize_args(vec![var("T"), var("U")], basic("int"));
    assert_eq!(once, Ok((vec![var("A"), var("B")], basic("int"), 2)));
    let again = canonicalize_args(vec![var("T"), var("U")], basic("int"));
    assert_eq!(once, again);
    assert_eq!(
        canonicalize_args(vec![var("U"), var("T")], basic("int")),
        Ok((vec![var("A"), var("B")], basic("int"), 2))
    );
}

#[test]
fn more_variables_than_letters_are_refused() {
    let names = "abcdefghijklmnopqrstuvwxyz0";
    let args: Vec<Arg> = names.chars().map(|c| var(&c.to_string())).collect();
    assert_eq!(canonicalize_args(args, basic("int")), Err(Error::TooManyTypeVariables));
    let args: Vec<Arg> = names.chars().take(26).map(|c| var(&c.to_string())).collect();
    let (renamed, _, n) = canonicalize_args(args, basic("int")).unwrap();
    assert_eq!(n, 26);
    assert_eq!(renamed[25], var("Z"));
}

#[test]
fn unmatched_brackets_are_malformed_types() {
    assert_eq!(parse_arg("[uint"), Err(Error::MalformedType));
    assert_eq!(parse_arg("(uint, str"), Err(Error::MalformedType));
    assert_eq!(parse_arg("Option<uint"), Err(Error::MalformedType));
}

#[test]
fn signatures_need_their_argument_list() {
    assert_eq!(parse_signature("uint -> bool", None, false), Err(Error::MalformedSignature));
    assert_eq!(parse_signature("(x:) -> bool", None, false), Err(Error::MalformedSignature));
    assert_eq!(parse_signature("(uint -> bool", None, false), Err(Error::MalformedSignature));
}

#[test]
fn signature_without_arrow_returns_unit() {
    assert_eq!(
        parse_signature("fn foo(a: uint)", None, false),
        Ok((vec![basic("uint")], Arg::Tuple(vec![]), 0))
    );
    assert_eq!(parse_signature("()", None, false), Ok((vec![], Arg::Tuple(vec![]), 0)));
    assert_eq!(parse_arg(""), Ok(Arg::Tuple(vec![])));
}

#[test]
fn function_types_nest() {
    assert_eq!(
        parse_signature("([A], fn(A)->B) -> [B]", None, false),
        Ok((
            vec![
                Arg::Vec(Box::new(var("A"))),
                Arg::Function(vec![var("A")], Box::new(var("B"))),
            ],
            Arg::Vec(Box::new(var("B"))),
            0
        ))
    );
    assert_eq!(parse_arg("fnord"), Ok(basic("fnord")));
}

#[test]
fn empty_receiver_is_no_receiver() {
    assert_eq!(
        parse_signature("fn f(a: int)", Some(""), false),
        Ok((vec![basic("int")], Arg::Tuple(vec![]), 0))
    );
}

#[test]
fn only_one_modifier_is_dropped() {
    assert_eq!(drop_modifiers("mut const hello"), "const hello");
    assert_eq!(parse_arg("[mut T]"), Ok(Arg::Vec(Box::new(var("T")))));
}

#[test]
fn the_first_letters_are_all_used() {
    let r = canonicalize_args(
        vec![var("X"), var("Y"), var("Z"), var("Z"), var("Y"), var("Z")],
        var("W"),
    );
    assert_eq!(
        r,
        Ok((
            vec![var("C"), var("B"), var("A"), var("A"), var("B"), var("A")],
            var("D"),
            4
        ))
    );
}

#[test]
fn commas_separate_only_outside_brackets() {
    assert_eq!(split_arguments("Map<(K, V), fn(A, B) -> C>"), vec!["Map<(K, V), fn(A, B) -> C>"]);
    assert_eq!(split_arguments(" a , b , c "), vec!["a", "b", "c"]);
    assert_eq!(split_arguments(""), vec![""]);
    assert_eq!(split_arguments("a, b<c"), vec!["a"]);
    assert_eq!(split_arguments("a, fn(b) -> c, d"), vec!["a", "fn(b) -> c", "d"]);
}
