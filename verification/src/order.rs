//! The order of type expressions is a total order.
//!
//! Names are ordered by code point, lists lexicographically, and type
//! expressions by variant first. Each of these orders is total,
//! antisymmetric and transitive, which is what sorting and deduplicating
//! by them relies on.

use crate::text::text_le;
use crate::types::{arg_le_spec, args_le_spec, texts_le, ArgView};
use vstd::prelude::*;

verus! {

/// A list with a first element is that element followed by the rest.
pub proof fn lemma_same_head_and_rest<T>(a: Seq<T>, b: Seq<T>)
    requires
        a.len() > 0,
        b.len() > 0,
        a[0] == b[0],
        a.drop_first() == b.drop_first(),
    ensures
        a == b,
{
    assert(a.drop_first().len() == a.len() - 1);
    assert(b.drop_first().len() == b.len() - 1);
    assert forall|i: int| 0 <= i < a.len() implies a[i] == b[i] by {
        if i > 0 {
            assert(a.drop_first()[i - 1] == a[i]);
            assert(b.drop_first()[i - 1] == b[i]);
        }
    }
    assert(a =~= b);
}

/// Different characters have different code points.
pub proof fn lemma_code_points_differ(x: char, y: char)
    requires
        x != y,
    ensures
        (x as u32) != (y as u32),
{
}

/// Of two names, one comes before the other or equals it.
pub proof fn names_are_comparable(a: Seq<char>, b: Seq<char>)
    ensures
        text_le(a, b) || text_le(b, a),
    decreases a.len(),
{
    if a.len() > 0 && b.len() > 0 {
        if a[0] == b[0] {
            names_are_comparable(a.drop_first(), b.drop_first());
        } else {
            lemma_code_points_differ(a[0], b[0]);
        }
    }
}

/// Two names that each come before or equal the other are the same name.
pub proof fn names_order_is_antisymmetric(a: Seq<char>, b: Seq<char>)
    requires
        text_le(a, b),
        text_le(b, a),
    ensures
        a == b,
    decreases a.len(),
{
    if a.len() == 0 {
        assert(a =~= b);
    } else {
        names_order_is_antisymmetric(a.drop_first(), b.drop_first());
        lemma_same_head_and_rest(a, b);
    }
}

/// The order of names is transitive.
pub proof fn names_order_is_transitive(a: Seq<char>, b: Seq<char>, c: Seq<char>)
    requires
        text_le(a, b),
        text_le(b, c),
    ensures
        text_le(a, c),
    decreases a.len(),
{
    if a.len() > 0 && a[0] == b[0] && b[0] == c[0] {
        names_order_is_transitive(a.drop_first(), b.drop_first(), c.drop_first());
    }
}

/// Of two lists of names, one comes before the other or equals it.
pub proof fn name_lists_are_comparable(a: Seq<Seq<char>>, b: Seq<Seq<char>>)
    ensures
        texts_le(a, b) || texts_le(b, a),
    decreases a.len(),
{
    if a.len() > 0 && b.len() > 0 {
        if a[0] == b[0] {
            name_lists_are_comparable(a.drop_first(), b.drop_first());
        } else {
            names_are_comparable(a[0], b[0]);
        }
    }
}

/// Two lists of names that each come before or equal the other are the same.
pub proof fn name_lists_order_is_antisymmetric(a: Seq<Seq<char>>, b: Seq<Seq<char>>)
    requires
        texts_le(a, b),
        texts_le(b, a),
    ensures
        a == b,
    decreases a.len(),
{
    if a.len() == 0 {
        assert(a =~= b);
    } else {
        if a[0] != b[0] {
            names_order_is_antisymmetric(a[0], b[0]);
        }
        name_lists_order_is_antisymmetric(a.drop_first(), b.drop_first());
        lemma_same_head_and_rest(a, b);
    }
}

/// The order of lists of names is transitive.
pub proof fn name_lists_order_is_transitive(
    a: Seq<Seq<char>>,
    b: Seq<Seq<char>>,
    c: Seq<Seq<char>>,
)
    requires
        texts_le(a, b),
        texts_le(b, c),
    ensures
        texts_le(a, c),
    decreases a.len(),
{
    if a.len() > 0 {
        if a[0] == b[0] && b[0] == c[0] {
            name_lists_order_is_transitive(a.drop_first(), b.drop_first(), c.drop_first());
        } else if a[0] != b[0] && b[0] != c[0] {
            if a[0] == c[0] {
                names_order_is_antisymmetric(a[0], b[0]);
            } else {
                names_order_is_transitive(a[0], b[0], c[0]);
            }
        }
    }
}

/// Of two type expressions, one comes before the other or equals it.
pub proof fn expressions_are_comparable(a: ArgView, b: ArgView)
    ensures
        arg_le_spec(a, b) || arg_le_spec(b, a),
    decreases a,
{
    match (a, b) {
        (ArgView::Basic(x), ArgView::Basic(y)) => {
            names_are_comparable(x, y);
        },
        (ArgView::Parametric(s1, a1), ArgView::Parametric(s2, a2)) => {
            if s1 == s2 {
                expression_lists_are_comparable(a1, a2);
            } else {
                expressions_are_comparable(*s1, *s2);
            }
        },
        (ArgView::Tuple(a1), ArgView::Tuple(a2)) => {
            expression_lists_are_comparable(a1, a2);
        },
        (ArgView::Vec(t1), ArgView::Vec(t2)) => {
            expressions_are_comparable(*t1, *t2);
        },
        (ArgView::Constrained(s1, c1), ArgView::Constrained(s2, c2)) => {
            if s1 == s2 {
                name_lists_are_comparable(c1, c2);
            } else {
                names_are_comparable(s1, s2);
            }
        },
        (ArgView::Function(a1, r1), ArgView::Function(a2, r2)) => {
            if a1 == a2 {
                expressions_are_comparable(*r1, *r2);
            } else {
                expression_lists_are_comparable(a1, a2);
            }
        },
        _ => {},
    }
}

/// Of two lists of type expressions, one comes before the other or equals it.
pub proof fn expression_lists_are_comparable(a: Seq<ArgView>, b: Seq<ArgView>)
    ensures
        args_le_spec(a, b) || args_le_spec(b, a),
    decreases a,
{
    if a.len() > 0 && b.len() > 0 {
        if a[0] == b[0] {
            expression_lists_are_comparable(a.drop_first(), b.drop_first());
        } else {
            expressions_are_comparable(a[0], b[0]);
        }
    }
}

/// Two type expressions that each come before or equal the other are the same.
pub proof fn expressions_order_is_antisymmetric(a: ArgView, b: ArgView)
    requires
        arg_le_spec(a, b),
        arg_le_spec(b, a),
    ensures
        a == b,
    decreases a,
{
    match (a, b) {
        (ArgView::Basic(x), ArgView::Basic(y)) => {
            names_order_is_antisymmetric(x, y);
        },
        (ArgView::Parametric(s1, a1), ArgView::Parametric(s2, a2)) => {
            if s1 == s2 {
                expression_lists_order_is_antisymmetric(a1, a2);
            } else {
                expressions_order_is_antisymmetric(*s1, *s2);
            }
        },
        (ArgView::Tuple(a1), ArgView::Tuple(a2)) => {
            expression_lists_order_is_antisymmetric(a1, a2);
        },
        (ArgView::Vec(t1), ArgView::Vec(t2)) => {
            expressions_order_is_antisymmetric(*t1, *t2);
        },
        (ArgView::Constrained(s1, c1), ArgView::Constrained(s2, c2)) => {
            if s1 == s2 {
                name_lists_order_is_antisymmetric(c1, c2);
            } else {
                names_order_is_antisymmetric(s1, s2);
            }
        },
        (ArgView::Function(a1, r1), ArgView::Function(a2, r2)) => {
            if a1 == a2 {
                expressions_order_is_antisymmetric(*r1, *r2);
            } else {
                expression_lists_order_is_antisymmetric(a1, a2);
            }
        },
        _ => {},
    }
}

/// Two lists of type expressions that each come before or equal the other
/// are the same.
pub proof fn expression_lists_order_is_antisymmetric(a: Seq<ArgView>, b: Seq<ArgView>)
    requires
        args_le_spec(a, b),
        args_le_spec(b, a),
    ensures
        a == b,
    decreases a,
{
    if a.len() == 0 {
        assert(a =~= b);
    } else {
        if a[0] != b[0] {
            expressions_order_is_antisymmetric(a[0], b[0]);
        }
        expression_lists_order_is_antisymmetric(a.drop_first(), b.drop_first());
        lemma_same_head_and_rest(a, b);
    }
}

/// The order of type expressions is transitive.
pub proof fn expressions_order_is_transitive(a: ArgView, b: ArgView, c: ArgView)
    requires
        arg_le_spec(a, b),
        arg_le_spec(b, c),
    ensures
        arg_le_spec(a, c),
    decreases a,
{
    match (a, b, c) {
        (ArgView::Basic(x), ArgView::Basic(y), ArgView::Basic(z)) => {
            names_order_is_transitive(x, y, z);
        },
        (
            ArgView::Parametric(s1, a1),
            ArgView::Parametric(s2, a2),
            ArgView::Parametric(s3, a3),
        ) => {
            if s1 == s2 && s2 == s3 {
                expression_lists_order_is_transitive(a1, a2, a3);
            } else if s1 != s2 && s2 != s3 {
                if s1 == s3 {
                    expressions_order_is_antisymmetric(*s1, *s2);
                } else {
                    expressions_order_is_transitive(*s1, *s2, *s3);
                }
            }
        },
        (ArgView::Tuple(a1), ArgView::Tuple(a2), ArgView::Tuple(a3)) => {
            expression_lists_order_is_transitive(a1, a2, a3);
        },
        (ArgView::Vec(t1), ArgView::Vec(t2), ArgView::Vec(t3)) => {
            expressions_order_is_transitive(*t1, *t2, *t3);
        },
        (
            ArgView::Constrained(s1, c1),
            ArgView::Constrained(s2, c2),
            ArgView::Constrained(s3, c3),
        ) => {
            if s1 == s2 && s2 == s3 {
                name_lists_order_is_transitive(c1, c2, c3);
            } else if s1 != s2 && s2 != s3 {
                if s1 == s3 {
                    names_order_is_antisymmetric(s1, s2);
                } else {
                    names_order_is_transitive(s1, s2, s3);
                }
            }
        },
        (ArgView::Function(a1, r1), ArgView::Function(a2, r2), ArgView::Function(a3, r3)) => {
            if a1 == a2 && a2 == a3 {
                expressions_order_is_transitive(*r1, *r2, *r3);
            } else if a1 != a2 && a2 != a3 {
                if a1 == a3 {
                    expression_lists_order_is_antisymmetric(a1, a2);
                } else {
                    expression_lists_order_is_transitive(a1, a2, a3);
                }
            }
        },
        _ => {},
    }
}

/// The order of lists of type expressions is transitive.
pub proof fn expression_lists_order_is_transitive(
    a: Seq<ArgView>,
    b: Seq<ArgView>,
    c: Seq<ArgView>,
)
    requires
        args_le_spec(a, b),
        args_le_spec(b, c),
    ensures
        args_le_spec(a, c),
    decreases a,
{
    if a.len() > 0 {
        if a[0] == b[0] && b[0] == c[0] {
            expression_lists_order_is_transitive(a.drop_first(), b.drop_first(), c.drop_first());
        } else if a[0] != b[0] && b[0] != c[0] {
            if a[0] == c[0] {
                expressions_order_is_antisymmetric(a[0], b[0]);
            } else {
                expressions_order_is_transitive(a[0], b[0], c[0]);
            }
        }
    }
}

} // verus!
