use rustle::types::{letters, set_equals, set_from_vec, Arg, Definition, Error};

fn basic(name: &str) -> Arg {
    Arg::Basic(name.to_string())
}

#[test]
fn test_set_equals() {
    let v1: Vec<usize> = vec![1, 2, 4];
    let v2: Vec<usize> = vec![2, 1, 4];
    assert!(set_equals(&set_from_vec(&v1), &set_from_vec(&v2)));

    let u1 = vec![basic("uint"), Arg::Vec(Box::new(basic("A"))), basic("A")];
    let u2 = vec![Arg::Vec(Box::new(basic("A"))), basic("A"), basic("uint")];
    assert!(set_equals(&set_from_vec(&u1), &set_from_vec(&u2)));
}

#[test]
fn arg_eq() {
    assert_eq!(basic("uint"), basic("uint"));
    assert_ne!(Arg::Parametric(Box::new(basic("uint")), vec![basic("A")]), basic("A"));
    assert!(rustle::types::arg_eq(&basic("uint"), &basic("uint")));
    assert!(!rustle::types::arg_eq(&basic("uint"), &basic("int")));
}

#[test]
fn test_definition_show() {
    let d = Definition {
        name: "foo".to_string(),
        path: "core::foo".to_string(),
        anchor: "fun-foo".to_string(),
        desc: "foo does bar".to_string(),
        args: vec![],
        ret: basic("int"),
        signature: "fn foo() -> int".to_string(),
    };
    assert_eq!(d.show(), "core::foo::foo - fn foo() -> int - foo does bar");
}

#[test]
fn test_letters() {
    assert_eq!(letters(1), Ok("B".to_string()));
    assert_eq!(letters(25), Ok("Z".to_string()));
}

#[test]
fn letters_end_at_z() {
    assert_eq!(letters(0), Ok("A".to_string()));
    assert_eq!(letters(26), Err(Error::TooManyTypeVariables));
}

#[test]
fn sets_forget_repetition_and_keep_difference() {
    let twice = vec![basic("A"), basic("A")];
    let once = vec![basic("A")];
    let other = vec![basic("A"), basic("B")];
    assert!(set_equals(&set_from_vec(&twice), &set_from_vec(&once)));
    assert!(!set_equals(&set_from_vec(&twice), &set_from_vec(&other)));
    assert!(!set_equals(&set_from_vec(&other), &set_from_vec(&once)));
}

#[test]
fn order_goes_by_variant_then_name_then_children() {
    let uint = basic("uint");
    let int = basic("int");
    let var = Arg::Constrained("A".to_string(), vec![]);
    let list = Arg::Vec(Box::new(basic("int")));
    assert!(int.le(&uint));
    assert!(!uint.le(&int));
    assert!(int.lt(&uint));
    assert!(uint.gt(&int));
    assert!(uint.ge(&uint));
    assert!(uint.le(&list));
    assert!(list.le(&var));
    assert!(!var.le(&uint));
    let short = Arg::Tuple(vec![basic("a")]);
    let long = Arg::Tuple(vec![basic("a"), basic("b")]);
    assert!(short.le(&long));
    assert!(!long.le(&short));
}

#[test]
fn a_set_keeps_each_element_once() {
    let s = set_from_vec(&vec![basic("A"), basic("B"), basic("A"), basic("B"), basic("C")]);
    assert_eq!(s.items, vec![basic("A"), basic("B"), basic("C")]);
    let n = set_from_vec(&vec![3usize, 3, 1, 3]);
    assert_eq!(n.items, vec![3, 1]);
}

#[test]
fn the_order_of_expressions_is_a_total_order() {
    let items = vec![
        basic("int"),
        basic("uint"),
        Arg::Parametric(Box::new(basic("Option")), vec![basic("int")]),
        Arg::Parametric(Box::new(basic("Option")), vec![basic("uint")]),
        Arg::Tuple(vec![]),
        Arg::Tuple(vec![basic("a"), basic("b")]),
        Arg::Vec(Box::new(basic("int"))),
        Arg::Constrained("A".to_string(), vec![]),
        Arg::Constrained("B".to_string(), vec![]),
        Arg::Function(vec![basic("int")], Box::new(basic("int"))),
        Arg::Function(vec![basic("int")], Box::new(basic("uint"))),
    ];
    for a in &items {
        for b in &items {
            assert!(a.le(b) || b.le(a));
            assert_eq!(a.le(b) && b.le(a), a == b);
            for c in &items {
                if a.le(b) && b.le(c) {
                    assert!(a.le(c));
                }
            }
        }
    }
    for i in 0..items.len() {
        for j in i..items.len() {
            assert!(items[i].le(&items[j]));
        }
    }
}
