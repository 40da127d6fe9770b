//! The data model: type expressions, queries, definitions and the index.
//!
//! Each executable type has a mathematical view (`ArgView`, `QueryView`,
//! `DefinitionView`, `TrieView`) in which strings are `Seq<char>` and vectors
//! are `Seq`; every contract in the crate is stated over these views.

use crate::text::{chars_of, le_text, text_le};
use vstd::prelude::*;

verus! {

/// Why a signature could not be turned into a definition or a query.
#[derive(Clone, Copy, Debug, PartialEq, Eq, Structural)]
pub enum Error {
    /// A type expression with an unmatched `<`, `(` or `[`.
    MalformedType,
    /// A signature without its argument list, or a parameter name with no type.
    MalformedSignature,
    /// More distinct type variables than there are letters.
    TooManyTypeVariables,
    /// A catalog that does not have the expected shape.
    SchemaViolation,
}

/// A named capability that bounds a type variable.
#[derive(Debug)]
pub struct Constraint(pub String);

/// A type expression.
#[derive(Debug)]
pub enum Arg {
    /// An atomic type name such as `uint`.
    Basic(String),
    /// A generic type applied to parameters, such as `Option<A>`.
    Parametric(Box<Arg>, Vec<Arg>),
    /// A tuple; the empty tuple is the unit type.
    Tuple(Vec<Arg>),
    /// A homogeneous sequence, `[T]`.
    Vec(Box<Arg>),
    /// A type variable and the capabilities that bound it.
    Constrained(String, Vec<Constraint>),
    /// A function type: arguments and result.
    Function(Vec<Arg>, Box<Arg>),
}

/// The mathematical value of an `Arg`.
pub enum ArgView {
    Basic(Seq<char>),
    Parametric(Box<ArgView>, Seq<ArgView>),
    Tuple(Seq<ArgView>),
    Vec(Box<ArgView>),
    Constrained(Seq<char>, Seq<Seq<char>>),
    Function(Seq<ArgView>, Box<ArgView>),
}

impl View for Constraint {
    type V = Seq<char>;

    open spec fn view(&self) -> Seq<char> {
        self.0@
    }
}

/// The values of a list of constraints.
pub open spec fn constraints_view(s: Seq<Constraint>) -> Seq<Seq<char>> {
    Seq::new(s.len(), |i: int| s[i]@)
}

/// The value of a type expression.
pub open spec fn arg_view(a: Arg) -> ArgView
    decreases a,
{
    match a {
        Arg::Basic(n) => ArgView::Basic(n@),
        Arg::Parametric(b, ps) => ArgView::Parametric(Box::new(arg_view(*b)), args_view(ps@)),
        Arg::Tuple(es) => ArgView::Tuple(args_view(es@)),
        Arg::Vec(e) => ArgView::Vec(Box::new(arg_view(*e))),
        Arg::Constrained(n, cs) => ArgView::Constrained(n@, constraints_view(cs@)),
        Arg::Function(xs, r) => ArgView::Function(args_view(xs@), Box::new(arg_view(*r))),
    }
}

/// The values of a list of type expressions, in order.
pub open spec fn args_view(s: Seq<Arg>) -> Seq<ArgView>
    decreases s,
{
    if s.len() == 0 {
        Seq::empty()
    } else {
        args_view(s.drop_last()).push(arg_view(s.last()))
    }
}

impl View for Arg {
    type V = ArgView;

    open spec fn view(&self) -> ArgView {
        arg_view(*self)
    }
}

/// `args_view` works element by element.
pub proof fn lemma_args_view(s: Seq<Arg>)
    ensures
        args_view(s).len() == s.len(),
        forall|i: int| 0 <= i < s.len() ==> #[trigger] args_view(s)[i] == arg_view(s[i]),
    decreases s.len(),
{
    if s.len() > 0 {
        lemma_args_view(s.drop_last());
    }
}

/// The view of a list that grew by one element.
pub proof fn lemma_args_view_push(s: Seq<Arg>, a: Arg)
    ensures
        args_view(s.push(a)) == args_view(s).push(arg_view(a)),
{
    assert(s.push(a).drop_last() =~= s);
}

/// The unit type.
pub open spec fn unit_view() -> ArgView {
    ArgView::Tuple(Seq::empty())
}

/// Whether two constraints are the same.
pub fn constraint_eq(a: &Constraint, b: &Constraint) -> (r: bool)
    ensures
        r == (a@ == b@),
{
    a.0 == b.0
}

/// Whether two lists of constraints are the same.
pub fn constraints_eq(a: &Vec<Constraint>, b: &Vec<Constraint>) -> (r: bool)
    ensures
        r == (constraints_view(a@) == constraints_view(b@)),
{
    if a.len() != b.len() {
        assert(constraints_view(a@).len() != constraints_view(b@).len());
        return false;
    }
    let mut i: usize = 0;
    while i < a.len()
        invariant
            i <= a.len(),
            a.len() == b.len(),
            forall|k: int| 0 <= k < i ==> a@[k]@ == b@[k]@,
        decreases a.len() - i,
    {
        if !constraint_eq(&a[i], &b[i]) {
            assert(constraints_view(a@)[i as int] != constraints_view(b@)[i as int]);
            return false;
        }
        i += 1;
    }
    assert(constraints_view(a@) =~= constraints_view(b@));
    true
}

/// Structural equality of type expressions.
pub fn arg_eq(s: &Arg, o: &Arg) -> (r: bool)
    ensures
        r == (s@ == o@),
    decreases s, 0nat,
{
    match (s, o) {
        (Arg::Basic(a), Arg::Basic(b)) => *a == *b,
        (Arg::Parametric(a, ps), Arg::Parametric(b, qs)) => arg_eq(a, b) && args_eq(ps, qs),
        (Arg::Tuple(es), Arg::Tuple(fs)) => args_eq(es, fs),
        (Arg::Vec(a), Arg::Vec(b)) => arg_eq(a, b),
        (Arg::Constrained(a, cs), Arg::Constrained(b, ds)) => *a == *b && constraints_eq(cs, ds),
        (Arg::Function(xs, a), Arg::Function(ys, b)) => args_eq(xs, ys) && arg_eq(a, b),
        _ => false,
    }
}

/// Structural equality of lists of type expressions.
pub fn args_eq(a: &Vec<Arg>, b: &Vec<Arg>) -> (r: bool)
    ensures
        r == (args_view(a@) == args_view(b@)),
    decreases a, 1nat,
{
    proof {
        lemma_args_view(a@);
        lemma_args_view(b@);
    }
    if a.len() != b.len() {
        return false;
    }
    let mut i: usize = 0;
    while i < a.len()
        invariant
            i <= a.len(),
            a.len() == b.len(),
            forall|k: int| 0 <= k < i ==> arg_view(a@[k]) == arg_view(b@[k]),
            forall|k: int| 0 <= k < a.len() ==> #[trigger] args_view(a@)[k] == arg_view(a@[k]),
            forall|k: int| 0 <= k < b.len() ==> #[trigger] args_view(b@)[k] == arg_view(b@[k]),
        decreases a.len() - i,
    {
        if !arg_eq(&a[i], &b[i]) {
            assert(args_view(a@)[i as int] != args_view(b@)[i as int]);
            return false;
        }
        i += 1;
    }
    assert(args_view(a@) =~= args_view(b@));
    true
}

impl PartialEq for Constraint {
    fn eq(&self, other: &Self) -> (r: bool) {
        constraint_eq(self, other)
    }
}

impl vstd::std_specs::cmp::PartialEqSpecImpl for Constraint {
    open spec fn obeys_eq_spec() -> bool {
        true
    }

    open spec fn eq_spec(&self, other: &Self) -> bool {
        self@ == other@
    }
}

impl Eq for Constraint {

}

impl Clone for Constraint {
    fn clone(&self) -> (r: Self)
        ensures
            r@ == self@,
    {
        Constraint(self.0.clone())
    }
}

impl Constraint {
    /// Whether `self` comes before `other`, or equals it, in lexicographic order.
    pub fn le(&self, other: &Constraint) -> (r: bool)
        ensures
            r == text_le(self@, other@),
    {
        le_text(&chars_of(self.0.as_str()), &chars_of(other.0.as_str()))
    }

    /// Whether `self` comes after `other`, or equals it.
    pub fn ge(&self, other: &Constraint) -> (r: bool)
        ensures
            r == text_le(other@, self@),
    {
        other.le(self)
    }

    /// Whether `self` comes strictly before `other`.
    pub fn lt(&self, other: &Constraint) -> (r: bool)
        ensures
            r == (text_le(self@, other@) && self@ != other@),
    {
        self.le(other) && !constraint_eq(self, other)
    }

    /// Whether `self` comes strictly after `other`.
    pub fn gt(&self, other: &Constraint) -> (r: bool)
        ensures
            r == (text_le(other@, self@) && self@ != other@),
    {
        other.lt(self)
    }
}

impl PartialEq for Arg {
    fn eq(&self, other: &Self) -> (r: bool) {
        arg_eq(self, other)
    }
}

impl vstd::std_specs::cmp::PartialEqSpecImpl for Arg {
    open spec fn obeys_eq_spec() -> bool {
        true
    }

    open spec fn eq_spec(&self, other: &Self) -> bool {
        self@ == other@
    }
}

impl Eq for Arg {

}

/// A copy of a list of constraints.
pub fn clone_constraints(v: &Vec<Constraint>) -> (r: Vec<Constraint>)
    ensures
        constraints_view(r@) == constraints_view(v@),
{
    let mut r: Vec<Constraint> = Vec::new();
    let mut i: usize = 0;
    while i < v.len()
        invariant
            i <= v.len(),
            r.len() == i,
            forall|k: int| 0 <= k < i ==> r@[k]@ == v@[k]@,
        decreases v.len() - i,
    {
        r.push(v[i].clone());
        i += 1;
    }
    assert(constraints_view(r@) =~= constraints_view(v@));
    r
}

/// A copy of a list of type expressions.
pub fn clone_args(v: &Vec<Arg>) -> (r: Vec<Arg>)
    ensures
        args_view(r@) == args_view(v@),
    decreases v, 1nat,
{
    let mut r: Vec<Arg> = Vec::new();
    let mut i: usize = 0;
    while i < v.len()
        invariant
            i <= v.len(),
            r.len() == i,
            forall|k: int| 0 <= k < i ==> arg_view(r@[k]) == arg_view(v@[k]),
        decreases v.len() - i,
    {
        r.push(clone_arg(&v[i]));
        i += 1;
    }
    proof {
        lemma_args_view(r@);
        lemma_args_view(v@);
        assert(args_view(r@) =~= args_view(v@));
    }
    r
}

/// A copy of a type expression.
pub fn clone_arg(a: &Arg) -> (r: Arg)
    ensures
        r@ == a@,
    decreases a, 0nat,
{
    match a {
        Arg::Basic(n) => Arg::Basic(n.clone()),
        Arg::Parametric(b, ps) => Arg::Parametric(Box::new(clone_arg(b)), clone_args(ps)),
        Arg::Tuple(es) => Arg::Tuple(clone_args(es)),
        Arg::Vec(e) => Arg::Vec(Box::new(clone_arg(e))),
        Arg::Constrained(n, cs) => Arg::Constrained(n.clone(), clone_constraints(cs)),
        Arg::Function(xs, r) => Arg::Function(clone_args(xs), Box::new(clone_arg(r))),
    }
}

impl Clone for Arg {
    fn clone(&self) -> (r: Self)
        ensures
            r@ == self@,
    {
        clone_arg(self)
    }
}

/// The place of a variant in the order of variants.
pub open spec fn variant_rank(a: ArgView) -> int {
    match a {
        ArgView::Basic(_) => 0,
        ArgView::Parametric(_, _) => 1,
        ArgView::Tuple(_) => 2,
        ArgView::Vec(_) => 3,
        ArgView::Constrained(_, _) => 4,
        ArgView::Function(_, _) => 5,
    }
}

/// Lexicographic order on lists of names.
pub open spec fn texts_le(a: Seq<Seq<char>>, b: Seq<Seq<char>>) -> bool
    decreases a.len(),
{
    if a.len() == 0 {
        true
    } else if b.len() == 0 {
        false
    } else if a[0] == b[0] {
        texts_le(a.drop_first(), b.drop_first())
    } else {
        text_le(a[0], b[0])
    }
}

/// The order of type expressions: by variant, then by name, then by children.
pub open spec fn arg_le_spec(a: ArgView, b: ArgView) -> bool
    decreases a,
{
    match (a, b) {
        (ArgView::Basic(x), ArgView::Basic(y)) => text_le(x, y),
        (ArgView::Parametric(s1, a1), ArgView::Parametric(s2, a2)) => if s1 == s2 {
            args_le_spec(a1, a2)
        } else {
            arg_le_spec(*s1, *s2)
        },
        (ArgView::Tuple(a1), ArgView::Tuple(a2)) => args_le_spec(a1, a2),
        (ArgView::Vec(t1), ArgView::Vec(t2)) => arg_le_spec(*t1, *t2),
        (ArgView::Constrained(s1, c1), ArgView::Constrained(s2, c2)) => if s1 == s2 {
            texts_le(c1, c2)
        } else {
            text_le(s1, s2)
        },
        (ArgView::Function(a1, r1), ArgView::Function(a2, r2)) => if a1 == a2 {
            arg_le_spec(*r1, *r2)
        } else {
            args_le_spec(a1, a2)
        },
        _ => variant_rank(a) <= variant_rank(b),
    }
}

/// Lexicographic order on lists of type expressions.
pub open spec fn args_le_spec(a: Seq<ArgView>, b: Seq<ArgView>) -> bool
    decreases a,
{
    if a.len() == 0 {
        true
    } else if b.len() == 0 {
        false
    } else if a[0] == b[0] {
        args_le_spec(a.drop_first(), b.drop_first())
    } else {
        arg_le_spec(a[0], b[0])
    }
}

/// Whether the constraints `a` come before `b`, or equal them.
pub fn constraints_le(a: &Vec<Constraint>, b: &Vec<Constraint>) -> (r: bool)
    ensures
        r == texts_le(constraints_view(a@), constraints_view(b@)),
{
    let ghost x = constraints_view(a@);
    let ghost y = constraints_view(b@);
    let mut i: usize = 0;
    assert(x.skip(0) =~= x && y.skip(0) =~= y);
    while i < a.len() && i < b.len() && constraint_eq(&a[i], &b[i])
        invariant
            i <= a.len(),
            i <= b.len(),
            x == constraints_view(a@),
            y == constraints_view(b@),
            texts_le(x, y) == texts_le(x.skip(i as int), y.skip(i as int)),
        decreases a.len() - i,
    {
        assert(x.skip(i as int).drop_first() =~= x.skip(i + 1));
        assert(y.skip(i as int).drop_first() =~= y.skip(i + 1));
        i += 1;
    }
    if i == a.len() {
        true
    } else if i == b.len() {
        false
    } else {
        a[i].le(&b[i])
    }
}

/// Whether `s` comes before `o`, or equals it, in the order of type expressions.
pub fn arg_le(s: &Arg, o: &Arg) -> (r: bool)
    ensures
        r == arg_le_spec(s@, o@),
    decreases s, 0nat,
{
    match (s, o) {
        (Arg::Basic(x), Arg::Basic(y)) => le_text(&chars_of(x.as_str()), &chars_of(y.as_str())),
        (Arg::Parametric(s1, a1), Arg::Parametric(s2, a2)) => if arg_eq(s1, s2) {
            args_le(a1, a2)
        } else {
            arg_le(s1, s2)
        },
        (Arg::Tuple(a1), Arg::Tuple(a2)) => args_le(a1, a2),
        (Arg::Vec(t1), Arg::Vec(t2)) => arg_le(t1, t2),
        (Arg::Constrained(s1, c1), Arg::Constrained(s2, c2)) => if *s1 == *s2 {
            constraints_le(c1, c2)
        } else {
            le_text(&chars_of(s1.as_str()), &chars_of(s2.as_str()))
        },
        (Arg::Function(a1, r1), Arg::Function(a2, r2)) => if args_eq(a1, a2) {
            arg_le(r1, r2)
        } else {
            args_le(a1, a2)
        },
        (Arg::Basic(_), _) => true,
        (_, Arg::Basic(_)) => false,
        (Arg::Parametric(_, _), _) => true,
        (_, Arg::Parametric(_, _)) => false,
        (Arg::Tuple(_), _) => true,
        (_, Arg::Tuple(_)) => false,
        (Arg::Vec(_), _) => true,
        (_, Arg::Vec(_)) => false,
        (Arg::Constrained(_, _), _) => true,
        (_, Arg::Constrained(_, _)) => false,
    }
}

/// Whether the list `a` comes before `b`, or equals it, in lexicographic order.
pub fn args_le(a: &Vec<Arg>, b: &Vec<Arg>) -> (r: bool)
    ensures
        r == args_le_spec(args_view(a@), args_view(b@)),
    decreases a, 1nat,
{
    let ghost x = args_view(a@);
    let ghost y = args_view(b@);
    proof {
        lemma_args_view(a@);
        lemma_args_view(b@);
        assert(x.skip(0) =~= x && y.skip(0) =~= y);
    }
    let mut i: usize = 0;
    while i < a.len() && i < b.len() && arg_eq(&a[i], &b[i])
        invariant
            i <= a.len(),
            i <= b.len(),
            x == args_view(a@),
            y == args_view(b@),
            x.len() == a.len(),
            y.len() == b.len(),
            forall|k: int| 0 <= k < a.len() ==> #[trigger] x[k] == arg_view(a@[k]),
            forall|k: int| 0 <= k < b.len() ==> #[trigger] y[k] == arg_view(b@[k]),
            args_le_spec(x, y) == args_le_spec(x.skip(i as int), y.skip(i as int)),
        decreases a.len() - i,
    {
        assert(x.skip(i as int).drop_first() =~= x.skip(i + 1));
        assert(y.skip(i as int).drop_first() =~= y.skip(i + 1));
        i += 1;
    }
    if i == a.len() {
        true
    } else if i == b.len() {
        false
    } else {
        arg_le(&a[i], &b[i])
    }
}

impl Arg {
    /// Whether `self` comes before `other`, or equals it.
    pub fn le(&self, other: &Arg) -> (r: bool)
        ensures
            r == arg_le_spec(self@, other@),
    {
        arg_le(self, other)
    }

    /// Whether `self` comes strictly after `other`.
    pub fn gt(&self, other: &Arg) -> (r: bool)
        ensures
            r == !arg_le_spec(self@, other@),
    {
        !arg_le(self, other)
    }

    /// Whether `self` comes strictly before `other`.
    pub fn lt(&self, other: &Arg) -> (r: bool)
        ensures
            r == (arg_le_spec(self@, other@) && self@ != other@),
    {
        arg_le(self, other) && !arg_eq(self, other)
    }

    /// Whether `self` comes after `other`, or equals it.
    pub fn ge(&self, other: &Arg) -> (r: bool)
        ensures
            r == (!arg_le_spec(self@, other@) || self@ == other@),
    {
        !arg_le(self, other) || arg_eq(self, other)
    }
}

/// What a user asks for: argument types and a return type.
#[derive(Debug)]
pub struct Query {
    pub args: Vec<Arg>,
    pub ret: Arg,
}

/// The mathematical value of a `Query`.
pub struct QueryView {
    pub args: Seq<ArgView>,
    pub ret: ArgView,
}

impl View for Query {
    type V = QueryView;

    open spec fn view(&self) -> QueryView {
        QueryView { args: args_view(self.args@), ret: self.ret@ }
    }
}

/// The values of a list of queries, in order.
pub open spec fn queries_view(s: Seq<Query>) -> Seq<QueryView> {
    Seq::new(s.len(), |i: int| s[i]@)
}

impl PartialEq for Query {
    fn eq(&self, other: &Self) -> (r: bool) {
        args_eq(&self.args, &other.args) && arg_eq(&self.ret, &other.ret)
    }
}

impl vstd::std_specs::cmp::PartialEqSpecImpl for Query {
    open spec fn obeys_eq_spec() -> bool {
        true
    }

    open spec fn eq_spec(&self, other: &Self) -> bool {
        self@ == other@
    }
}

impl Eq for Query {

}

impl Clone for Query {
    fn clone(&self) -> (r: Self)
        ensures
            r@ == self@,
    {
        Query { args: clone_args(&self.args), ret: clone_arg(&self.ret) }
    }
}

/// One catalog entry: a function, where it is documented, and its parsed signature.
#[derive(Debug)]
pub struct Definition {
    pub name: String,
    pub path: String,
    pub anchor: String,
    pub desc: String,
    pub args: Vec<Arg>,
    pub ret: Arg,
    pub signature: String,
}

/// The mathematical value of a `Definition`.
pub struct DefinitionView {
    pub name: Seq<char>,
    pub path: Seq<char>,
    pub anchor: Seq<char>,
    pub desc: Seq<char>,
    pub args: Seq<ArgView>,
    pub ret: ArgView,
    pub signature: Seq<char>,
}

impl View for Definition {
    type V = DefinitionView;

    open spec fn view(&self) -> DefinitionView {
        DefinitionView {
            name: self.name@,
            path: self.path@,
            anchor: self.anchor@,
            desc: self.desc@,
            args: args_view(self.args@),
            ret: self.ret@,
            signature: self.signature@,
        }
    }
}

/// The values of a list of definitions, in order.
pub open spec fn defs_view(s: Seq<Definition>) -> Seq<DefinitionView> {
    Seq::new(s.len(), |i: int| s[i]@)
}

impl PartialEq for Definition {
    fn eq(&self, other: &Self) -> (r: bool) {
        self.name == other.name && self.path == other.path && self.anchor == other.anchor
            && self.desc == other.desc && args_eq(&self.args, &other.args) && arg_eq(
            &self.ret,
            &other.ret,
        ) && self.signature == other.signature
    }
}

impl vstd::std_specs::cmp::PartialEqSpecImpl for Definition {
    open spec fn obeys_eq_spec() -> bool {
        true
    }

    open spec fn eq_spec(&self, other: &Self) -> bool {
        self@ == other@
    }
}

impl Eq for Definition {

}

impl Clone for Definition {
    fn clone(&self) -> (r: Self)
        ensures
            r@ == self@,
    {
        Definition {
            name: self.name.clone(),
            path: self.path.clone(),
            anchor: self.anchor.clone(),
            desc: self.desc.clone(),
            args: clone_args(&self.args),
            ret: clone_arg(&self.ret),
            signature: self.signature.clone(),
        }
    }
}

/// How a definition is shown: `path::name - signature - description`.
pub open spec fn shown(d: DefinitionView) -> Seq<char> {
    d.path + seq![':', ':'] + d.name + seq![' ', '-', ' '] + d.signature + seq![' ', '-', ' ']
        + d.desc
}

impl Definition {
    /// The line that presents this definition to a user.
    pub fn show(&self) -> (r: String)
        ensures
            r@ == shown(self@),
    {
        proof {
            reveal_strlit("::");
            reveal_strlit(" - ");
            assert("::"@ =~= seq![':', ':']);
            assert(" - "@ =~= seq![' ', '-', ' ']);
        }
        let mut r = self.path.clone();
        r.append("::");
        r.append(self.name.as_str());
        r.append(" - ");
        r.append(self.signature.as_str());
        r.append(" - ");
        r.append(self.desc.as_str());
        r
    }
}

/// The definitions of one arity.
#[derive(Debug)]
pub struct Bucket {
    pub defs: Vec<Definition>,
}

/// A prefix tree over names: one edge per character, and at each node the
/// definitions whose name ends there. The edges of a node are kept in the
/// order in which they were added, so that a walk of the tree has one order;
/// a tree that `add_name` built has no two edges with one label at a node
/// (`distinct_edges`).
#[derive(Debug)]
pub struct Trie {
    pub children: Vec<(char, Trie)>,
    pub defs: Vec<Definition>,
}

/// The mathematical value of a `Trie`.
pub struct TrieView {
    pub children: Seq<(char, TrieView)>,
    pub defs: Seq<DefinitionView>,
}

/// The value of a prefix tree.
pub open spec fn trie_view(t: Trie) -> TrieView
    decreases t,
{
    TrieView { children: edges_view(t.children@), defs: defs_view(t.defs@) }
}

/// The values of the edges of a node, in order.
pub open spec fn edges_view(s: Seq<(char, Trie)>) -> Seq<(char, TrieView)>
    decreases s,
{
    if s.len() == 0 {
        Seq::empty()
    } else {
        edges_view(s.drop_last()).push((s.last().0, trie_view(s.last().1)))
    }
}

impl View for Trie {
    type V = TrieView;

    open spec fn view(&self) -> TrieView {
        trie_view(*self)
    }
}

/// `edges_view` works element by element.
pub proof fn lemma_edges_view(s: Seq<(char, Trie)>)
    ensures
        edges_view(s).len() == s.len(),
        forall|i: int|
            0 <= i < s.len() ==> #[trigger] edges_view(s)[i] == (s[i].0, trie_view(s[i].1)),
    decreases s.len(),
{
    if s.len() > 0 {
        lemma_edges_view(s.drop_last());
    }
}

/// The bucket that holds the definitions of `arity` arguments.
pub open spec fn bucket_index(arity: nat) -> int {
    if arity < 6 {
        arity as int
    } else {
        6
    }
}

/// Every definition by arity, and the canonical ones by name.
#[derive(Debug)]
pub struct Data {
    pub ar0: Bucket,
    pub ar1: Bucket,
    pub ar2: Bucket,
    pub ar3: Bucket,
    pub ar4: Bucket,
    pub ar5: Bucket,
    pub arn: Bucket,
    pub names: Trie,
}

impl Data {
    /// The definitions in bucket `k`, in the order in which they were added.
    pub open spec fn bucket(&self, k: int) -> Seq<DefinitionView> {
        if k == 0 {
            defs_view(self.ar0.defs@)
        } else if k == 1 {
            defs_view(self.ar1.defs@)
        } else if k == 2 {
            defs_view(self.ar2.defs@)
        } else if k == 3 {
            defs_view(self.ar3.defs@)
        } else if k == 4 {
            defs_view(self.ar4.defs@)
        } else if k == 5 {
            defs_view(self.ar5.defs@)
        } else {
            defs_view(self.arn.defs@)
        }
    }
}

/// An index that holds nothing.
pub fn empty_data() -> (d: Data)
    ensures
        forall|k: int| d.bucket(k) == Seq::<DefinitionView>::empty(),
        d.names@ == (TrieView { children: Seq::empty(), defs: Seq::empty() }),
{
    let d = Data {
        ar0: Bucket { defs: Vec::new() },
        ar1: Bucket { defs: Vec::new() },
        ar2: Bucket { defs: Vec::new() },
        ar3: Bucket { defs: Vec::new() },
        ar4: Bucket { defs: Vec::new() },
        ar5: Bucket { defs: Vec::new() },
        arn: Bucket { defs: Vec::new() },
        names: Trie { children: Vec::new(), defs: Vec::new() },
    };
    assert forall|k: int| d.bucket(k) == Seq::<DefinitionView>::empty() by {
        assert(d.bucket(k) =~= Seq::<DefinitionView>::empty());
    }
    assert(d.names@.defs =~= Seq::empty());
    d
}

/// The number of canonical variable names.
pub const LETTERS: usize = 26;

/// The canonical variable name of rank `n`: `A` for 0 up to `Z` for 25.
pub open spec fn letter(n: nat) -> Seq<char> {
    seq![((65 + n) as u8) as char]
}

/// The canonical variable name of rank `n`, as long as there is one.
pub fn letters(n: usize) -> (r: Result<String, Error>)
    ensures
        match r {
            Ok(s) => n < LETTERS && s@ == letter(n as nat),
            Err(e) => n >= LETTERS && e == Error::TooManyTypeVariables,
        },
{
    if n >= LETTERS {
        return Err(Error::TooManyTypeVariables);
    }
    let code: u8 = 65 + (n as u8);
    let mut s = String::new();
    s.push(code as char);
    assert(s@ =~= letter(n as nat));
    Ok(s)
}

/// What can be kept in an `ItemSet`: a value that can be compared and copied
/// by its view.
pub trait Element: View + Sized {
    /// Whether two values are the same.
    fn same(&self, other: &Self) -> (r: bool)
        ensures
            r == (self@ == other@),
    ;

    /// A copy of this value.
    fn copy(&self) -> (r: Self)
        ensures
            r@ == self@,
    ;
}

impl Element for usize {
    fn same(&self, other: &Self) -> (r: bool) {
        *self == *other
    }

    fn copy(&self) -> (r: Self) {
        *self
    }
}

impl Element for Arg {
    fn same(&self, other: &Self) -> (r: bool) {
        arg_eq(self, other)
    }

    fn copy(&self) -> (r: Self) {
        clone_arg(self)
    }
}

/// The set of the values that occur in `s`.
pub open spec fn members<T: View>(s: Seq<T>) -> Set<T::V> {
    Set::new(|x: T::V| exists|i: int| 0 <= i < s.len() && #[trigger] s[i]@ == x)
}

/// A finite set, kept as a list without repetition.
pub struct ItemSet<T> {
    pub items: Vec<T>,
}

impl<T: View> View for ItemSet<T> {
    type V = Set<T::V>;

    open spec fn view(&self) -> Set<T::V> {
        members(self.items@)
    }
}

/// Whether `x` occurs in `items`.
pub fn has_item<T: Element>(items: &Vec<T>, x: &T) -> (r: bool)
    ensures
        r == members(items@).contains(x@),
{
    let mut i: usize = 0;
    while i < items.len()
        invariant
            i <= items.len(),
            forall|k: int| 0 <= k < i ==> items@[k]@ != x@,
        decreases items.len() - i,
    {
        if items[i].same(x) {
            return true;
        }
        i += 1;
    }
    false
}

/// The set of the elements of `v`: order and repetition are forgotten.
pub fn set_from_vec<T: Element>(v: &Vec<T>) -> (s: ItemSet<T>)
    ensures
        s@ == members(v@),
        forall|i: int, j: int|
            0 <= i < j < s.items@.len() ==> #[trigger] s.items@[i]@ != #[trigger] s.items@[j]@,
{
    let mut items: Vec<T> = Vec::new();
    let mut i: usize = 0;
    while i < v.len()
        invariant
            i <= v.len(),
            members(items@) =~= members(v@.take(i as int)),
            forall|a: int, b: int|
                0 <= a < b < items@.len() ==> #[trigger] items@[a]@ != #[trigger] items@[b]@,
        decreases v.len() - i,
    {
        let ghost before = items@;
        let found = has_item(&items, &v[i]);
        if !found {
            items.push(v[i].copy());
        }
        proof {
            let next = v@.take(i + 1);
            assert forall|x: T::V| members(items@).contains(x) == members(next).contains(x) by {
                if members(items@).contains(x) {
                    let k = choose|k: int| 0 <= k < items@.len() && #[trigger] items@[k]@ == x;
                    if k < before.len() {
                        assert(before[k]@ == x);
                        assert(members(before).contains(x));
                        let j = choose|j: int|
                            0 <= j < v@.take(i as int).len() && #[trigger] v@.take(i as int)[j]@
                                == x;
                        assert(next[j]@ == x);
                    } else {
                        assert(next[i as int]@ == x);
                    }
                }
                if members(next).contains(x) {
                    let j = choose|j: int| 0 <= j < next.len() && #[trigger] next[j]@ == x;
                    if j < i {
                        assert(v@.take(i as int)[j]@ == x);
                        assert(members(before).contains(x));
                        let k = choose|k: int| 0 <= k < before.len() && #[trigger] before[k]@ == x;
                        assert(items@[k]@ == x);
                    } else if found {
                        assert(members(before).contains(x));
                        let k = choose|k: int| 0 <= k < before.len() && #[trigger] before[k]@ == x;
                        assert(items@[k]@ == x);
                    } else {
                        assert(items@[before.len() as int]@ == x);
                    }
                }
            }
        }
        i += 1;
    }
    assert(v@.take(v.len() as int) =~= v@);
    ItemSet { items }
}

/// Whether two sets hold the same elements.
pub fn set_equals<T: Element>(t1: &ItemSet<T>, t2: &ItemSet<T>) -> (r: bool)
    ensures
        r == (t1@ == t2@),
{
    let mut i: usize = 0;
    while i < t1.items.len()
        invariant
            i <= t1.items.len(),
            forall|k: int| 0 <= k < i ==> t2@.contains(#[trigger] t1.items@[k]@),
        decreases t1.items.len() - i,
    {
        if !has_item(&t2.items, &t1.items[i]) {
            assert(t1@.contains(t1.items@[i as int]@));
            return false;
        }
        i += 1;
    }
    let mut j: usize = 0;
    while j < t2.items.len()
        invariant
            j <= t2.items.len(),
            forall|k: int| 0 <= k < t1.items.len() ==> t2@.contains(#[trigger] t1.items@[k]@),
            forall|k: int| 0 <= k < j ==> t1@.contains(#[trigger] t2.items@[k]@),
        decreases t2.items.len() - j,
    {
        if !has_item(&t1.items, &t2.items[j]) {
            assert(t2@.contains(t2.items@[j as int]@));
            return false;
        }
        j += 1;
    }
    assert(t1@ =~= t2@);
    true
}

/// The set of the values of a list of type expressions is the set of its view.
pub proof fn lemma_members_of_args(s: Seq<Arg>)
    ensures
        members(s) == args_view(s).to_set(),
{
    lemma_args_view(s);
    assert forall|x: ArgView| members(s).contains(x) == args_view(s).to_set().contains(x) by {
        if members(s).contains(x) {
            let i = choose|i: int| 0 <= i < s.len() && #[trigger] s[i]@ == x;
            assert(args_view(s)[i] == x);
        }
        if args_view(s).to_set().contains(x) {
            let i = choose|i: int| 0 <= i < args_view(s).len() && args_view(s)[i] == x;
            assert(s[i]@ == x);
        }
    }
    assert(members(s) =~= args_view(s).to_set());
}

/// The values of a list of strings, in order.
pub open spec fn strings_view(s: Seq<String>) -> Seq<Seq<char>> {
    Seq::new(s.len(), |i: int| s[i]@)
}

/// The names of the type variables of `a`, in depth-first order, left to right,
/// each as often as it occurs.
pub open spec fn var_names(a: ArgView) -> Seq<Seq<char>>
    decreases a,
{
    match a {
        ArgView::Basic(_) => Seq::empty(),
        ArgView::Parametric(b, ps) => var_names(*b) + var_names_of(ps),
        ArgView::Tuple(es) => var_names_of(es),
        ArgView::Vec(e) => var_names(*e),
        ArgView::Constrained(n, _) => seq![n],
        ArgView::Function(xs, r) => var_names_of(xs) + var_names(*r),
    }
}

/// The names of the type variables of a list of type expressions.
pub open spec fn var_names_of(s: Seq<ArgView>) -> Seq<Seq<char>>
    decreases s,
{
    if s.len() == 0 {
        Seq::empty()
    } else {
        var_names_of(s.drop_last()) + var_names(s.last())
    }
}

/// Appends to `names` the name of every type variable of `a`, in depth-first
/// order, left to right.
pub fn traverse_constrained(a: &Arg, names: &mut Vec<String>)
    ensures
        strings_view(final(names)@) == strings_view(old(names)@) + var_names(a@),
    decreases a, 0nat,
{
    match a {
        Arg::Basic(_) => {
            assert(strings_view(names@) + Seq::<Seq<char>>::empty() =~= strings_view(names@));
        },
        Arg::Parametric(b, ps) => {
            traverse_constrained(b, names);
            traverse_all(ps, names);
            assert(strings_view(old(names)@) + var_names(b@) + var_names_of(args_view(ps@))
                =~= strings_view(old(names)@) + (var_names(b@) + var_names_of(args_view(ps@))));
        },
        Arg::Tuple(es) => {
            traverse_all(es, names);
        },
        Arg::Vec(e) => {
            traverse_constrained(e, names);
        },
        Arg::Constrained(n, _) => {
            names.push(n.clone());
            assert(strings_view(names@) =~= strings_view(old(names)@) + seq![n@]);
        },
        Arg::Function(xs, r) => {
            traverse_all(xs, names);
            traverse_constrained(r, names);
            assert(strings_view(old(names)@) + var_names_of(args_view(xs@)) + var_names(r@)
                =~= strings_view(old(names)@) + (var_names_of(args_view(xs@)) + var_names(r@)));
        },
    }
}

/// Appends to `names` the name of every type variable of the expressions in `v`.
pub fn traverse_all(v: &Vec<Arg>, names: &mut Vec<String>)
    ensures
        strings_view(final(names)@) == strings_view(old(names)@) + var_names_of(args_view(v@)),
    decreases v, 1nat,
{
    let mut i: usize = 0;
    assert(args_view(v@.take(0)) =~= Seq::<ArgView>::empty());
    assert(strings_view(names@) + Seq::<Seq<char>>::empty() =~= strings_view(names@));
    while i < v.len()
        invariant
            i <= v.len(),
            strings_view(names@) == strings_view(old(names)@) + var_names_of(
                args_view(v@.take(i as int)),
            ),
        decreases v.len() - i,
    {
        let ghost before = strings_view(names@);
        traverse_constrained(&v[i], names);
        proof {
            assert(v@.take(i + 1).drop_last() =~= v@.take(i as int));
            assert(v@.take(i + 1).last() == v@[i as int]);
            lemma_args_view_push(v@.take(i as int), v@[i as int]);
            assert(v@.take(i as int).push(v@[i as int]) =~= v@.take(i + 1));
            let prev = args_view(v@.take(i as int));
            let next = args_view(v@.take(i + 1));
            assert(next.drop_last() =~= prev);
            assert(strings_view(old(names)@) + var_names_of(prev) + var_names(v@[i as int]@)
                =~= strings_view(old(names)@) + (var_names_of(prev) + var_names(v@[i as int]@)));
        }
        i += 1;
    }
    assert(v@.take(v.len() as int) =~= v@);
}

/// Whether `f` may be applied to every type variable of `a`.
pub open spec fn applies_to<F: Fn(&String, &Vec<Constraint>) -> Arg>(f: F, a: Arg) -> bool
    decreases a,
{
    match a {
        Arg::Basic(_) => true,
        Arg::Parametric(b, ps) => applies_to(f, *b) && forall|i: int|
            0 <= i < ps@.len() ==> applies_to(f, ps@[i]),
        Arg::Tuple(es) => forall|i: int| 0 <= i < es@.len() ==> applies_to(f, es@[i]),
        Arg::Vec(e) => applies_to(f, *e),
        Arg::Constrained(n, cs) => call_requires(f, (&n, &cs)),
        Arg::Function(xs, r) => applies_to(f, *r) && forall|i: int|
            0 <= i < xs@.len() ==> applies_to(f, xs@[i]),
    }
}

/// Whether `r` is `a` with each type variable replaced by a result of `f`.
pub open spec fn mapped_by<F: Fn(&String, &Vec<Constraint>) -> Arg>(f: F, a: Arg, r: Arg) -> bool
    decreases a,
{
    match a {
        Arg::Basic(_) => r@ == a@,
        Arg::Parametric(b, ps) => r matches Arg::Parametric(rb, rps) && mapped_by(f, *b, *rb)
            && all_mapped_by(f, ps@, rps@),
        Arg::Tuple(es) => r matches Arg::Tuple(res) && all_mapped_by(f, es@, res@),
        Arg::Vec(e) => r matches Arg::Vec(re) && mapped_by(f, *e, *re),
        Arg::Constrained(n, cs) => call_ensures(f, (&n, &cs), r),
        Arg::Function(xs, t) => r matches Arg::Function(rxs, rt) && all_mapped_by(f, xs@, rxs@)
            && mapped_by(f, *t, *rt),
    }
}

/// Whether `r` is `s` with `f` applied throughout, element by element.
pub open spec fn all_mapped_by<F: Fn(&String, &Vec<Constraint>) -> Arg>(
    f: F,
    s: Seq<Arg>,
    r: Seq<Arg>,
) -> bool
    decreases s,
{
    r.len() == s.len() && forall|i: int| 0 <= i < s.len() ==> mapped_by(f, s[i], r[i])
}

/// `a` rebuilt with `f` applied to the name and constraints of each type
/// variable; everything else is kept.
pub fn map_constrained<F: Fn(&String, &Vec<Constraint>) -> Arg>(a: &Arg, f: &F) -> (r: Arg)
    requires
        applies_to(*f, *a),
    ensures
        mapped_by(*f, *a, r),
    decreases a, 0nat,
{
    match a {
        Arg::Basic(n) => Arg::Basic(n.clone()),
        Arg::Parametric(b, ps) => Arg::Parametric(
            Box::new(map_constrained(b, f)),
            map_constrained_all(ps, f),
        ),
        Arg::Tuple(es) => Arg::Tuple(map_constrained_all(es, f)),
        Arg::Vec(e) => Arg::Vec(Box::new(map_constrained(e, f))),
        Arg::Constrained(n, cs) => f(n, cs),
        Arg::Function(xs, t) => Arg::Function(
            map_constrained_all(xs, f),
            Box::new(map_constrained(t, f)),
        ),
    }
}

/// Each expression of `v` rebuilt with `f` applied to its type variables.
pub fn map_constrained_all<F: Fn(&String, &Vec<Constraint>) -> Arg>(v: &Vec<Arg>, f: &F) -> (r:
    Vec<Arg>)
    requires
        forall|i: int| 0 <= i < v@.len() ==> applies_to(*f, v@[i]),
    ensures
        all_mapped_by(*f, v@, r@),
    decreases v, 1nat,
{
    let mut r: Vec<Arg> = Vec::new();
    let mut i: usize = 0;
    while i < v.len()
        invariant
            i <= v.len(),
            r.len() == i,
            forall|k: int| 0 <= k < v@.len() ==> applies_to(*f, v@[k]),
            forall|k: int| 0 <= k < i ==> mapped_by(*f, v@[k], r@[k]),
        decreases v.len() - i,
    {
        r.push(map_constrained(&v[i], f));
        i += 1;
    }
    r
}

} // verus!
