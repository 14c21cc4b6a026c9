use std::rc::Rc;
use vstd::prelude::*;

use crate::types::{type_vector, SIBaseUnits, Type, NUM_BASE_UNITS};

verus! {

/// Width of the column block of one object: the scalar prefix, then one
/// column per SI base dimension.
pub const COLUMNS_PER_OBJECT: usize = 1 + NUM_BASE_UNITS;

/// A named carrier of an unknown eight-component vector.
#[derive(Debug)]
pub struct Object {
    pub label: String,
}

impl Object {
    pub fn new(label: &str) -> (r: Object)
        ensures
            r.label@ == label@,
    {
        Object { label: label.to_owned() }
    }
}

/// Which component of an object a term refers to.
#[derive(Clone, Copy, Debug, PartialEq, Eq, Structural)]
pub enum Selector {
    BaseUnit(SIBaseUnits),
    ScalarPrefix,
}

/// A linear expression over object components.
#[derive(Debug)]
pub enum Term {
    Add(Rc<Term>, Rc<Term>),
    Sub(Rc<Term>, Rc<Term>),
    Object(Rc<Object>, Selector),
}

/// The equation `term = value`, where `value` is a fixed-point number.
#[derive(Debug)]
pub struct Equation {
    pub term: Rc<Term>,
    pub value: i64,
}

/// A conjunction of equations.
#[derive(Debug)]
pub enum Constraint {
    And(Rc<Constraint>, Rc<Constraint>),
    Equation(Rc<Equation>),
}

/// Position of a selected component inside an object's column block.
pub open spec fn selector_offset(s: Selector) -> int {
    match s {
        Selector::ScalarPrefix => 0,
        Selector::BaseUnit(u) => 1 + u.index(),
    }
}

/// The value of a term when each label is mapped to its eight components.
pub open spec fn term_value(t: Term, env: Map<Seq<char>, Seq<int>>) -> int
    decreases t,
{
    match t {
        Term::Add(a, b) => term_value(*a, env) + term_value(*b, env),
        Term::Sub(a, b) => term_value(*a, env) - term_value(*b, env),
        Term::Object(o, s) => env[o.label@][selector_offset(s)],
    }
}

/// The equations of a constraint, left to right.
pub open spec fn equations(c: Constraint) -> Seq<Equation>
    decreases c,
{
    match c {
        Constraint::And(a, b) => equations(*a) + equations(*b),
        Constraint::Equation(e) => seq![*e],
    }
}

/// The equations of a shared constraint.
pub open spec fn constraint_equations(c: Rc<Constraint>) -> Seq<Equation> {
    equations(*c)
}

/// Whether every equation of a constraint holds under an assignment.
pub open spec fn holds(c: Constraint, env: Map<Seq<char>, Seq<int>>) -> bool {
    forall|i: int| 0 <= i < equations(c).len() ==> #[trigger] term_value(*equations(c)[i].term, env) == equations(c)[i].value
}

/// The number of object references in a term.
pub open spec fn term_leaves(t: Term) -> int
    decreases t,
{
    match t {
        Term::Add(a, b) => term_leaves(*a) + term_leaves(*b),
        Term::Sub(a, b) => term_leaves(*a) + term_leaves(*b),
        Term::Object(_, _) => 1,
    }
}

/// The coefficient of component `off` of the object labelled `label` in a term.
pub open spec fn coefficient(t: Term, label: Seq<char>, off: int) -> int
    decreases t,
{
    match t {
        Term::Add(a, b) => coefficient(*a, label, off) + coefficient(*b, label, off),
        Term::Sub(a, b) => coefficient(*a, label, off) - coefficient(*b, label, off),
        Term::Object(o, s) => if o.label@ == label && selector_offset(s) == off { 1 } else { 0 },
    }
}

/// The left operand of a sum or difference.
pub open spec fn left_of(t: Term) -> Term {
    match t {
        Term::Add(a, _) => *a,
        Term::Sub(a, _) => *a,
        Term::Object(_, _) => t,
    }
}

/// The right operand of a sum or difference.
pub open spec fn right_of(t: Term) -> Term {
    match t {
        Term::Add(_, b) => *b,
        Term::Sub(_, b) => *b,
        Term::Object(_, _) => t,
    }
}

/// The term of an equation.
pub open spec fn term_of(e: Equation) -> Term {
    *e.term
}

/// The term behind a shared reference.
pub open spec fn shared_term(t: &Rc<Term>) -> Term {
    **t
}

/// The equation behind a shared reference.
pub open spec fn shared_equation(e: &Rc<Equation>) -> Equation {
    **e
}

/// The labels of the objects a term refers to.
pub open spec fn term_mentions(t: Term, x: Seq<char>) -> bool
    decreases t,
{
    match t {
        Term::Add(a, b) => term_mentions(*a, x) || term_mentions(*b, x),
        Term::Sub(a, b) => term_mentions(*a, x) || term_mentions(*b, x),
        Term::Object(o, _) => o.label@ == x,
    }
}

/// Joins equations into a left-folded conjunction.
fn conjunction(eqs: &Vec<Rc<Equation>>) -> (r: Rc<Constraint>)
    requires
        eqs.len() >= 1,
    ensures
        equations(*r) == eqs@.map_values(|e: Rc<Equation>| *e),
{
    let ghost want = eqs@.map_values(|e: Rc<Equation>| *e);
    let mut c = Rc::new(Constraint::Equation(eqs[0].clone()));
    let mut i: usize = 1;
    assert(equations(*c) =~= want.take(1));
    while i < eqs.len()
        invariant
            1 <= i <= eqs.len(),
            want == eqs@.map_values(|e: Rc<Equation>| *e),
            equations(*c) == want.take(i as int),
        decreases eqs.len() - i,
    {
        let ghost prev = want.take(i as int);
        let e = eqs[i].clone();
        let leaf = Rc::new(Constraint::Equation(e));
        assert(equations(*leaf) == seq![*e]);
        c = Rc::new(Constraint::And(c, leaf));
        assert(equations(*c) == prev + seq![*e]);
        assert(want.take(i + 1) =~= want.take(i as int) + seq![want[i as int]]);
        i = i + 1;
    }
    assert(want.take(eqs.len() as int) =~= want);
    c
}

/// A reference to component `i` of an object: the scalar prefix for 0, SI
/// dimension `i - 1` otherwise.
/// One when `(x, off)` is component `k` of the object labelled `label`.
pub open spec fn unit_at(x: Seq<char>, off: int, label: Seq<char>, k: int) -> int {
    if x == label && off == k {
        1
    } else {
        0
    }
}

fn component(obj: &Rc<Object>, i: usize) -> (r: Rc<Term>)
    requires
        i < COLUMNS_PER_OBJECT,
    ensures
        forall|x: Seq<char>, off: int| #[trigger] coefficient(*r, x, off) == unit_at(x, off, obj.label@, i as int),
        forall|env: Map<Seq<char>, Seq<int>>| #[trigger] term_value(*r, env) == env[obj.label@][i as int],
        term_leaves(*r) == 1,
        forall|x: Seq<char>| #[trigger] term_mentions(*r, x) == (x == obj.label@),
{
    if i == 0 {
        Rc::new(Term::Object(obj.clone(), Selector::ScalarPrefix))
    } else {
        Rc::new(Term::Object(obj.clone(), Selector::BaseUnit(SIBaseUnits::from_index(i - 1))))
    }
}

/// `c` pins each of the eight components of object `o` to the matching
/// entry of `v`.
pub open spec fn pins_vector(c: Constraint, v: Seq<int>, o: Seq<char>) -> bool {
    &&& equations(c).len() == 8
    &&& forall|i: int, env: Map<Seq<char>, Seq<int>>|
        0 <= i < 8 ==> #[trigger] term_value(*equations(c)[i].term, env) == env[o][i]
    &&& forall|i: int| 0 <= i < 8 ==> #[trigger] equations(c)[i].value == v[i]
    &&& forall|i: int, x: Seq<char>, off: int|
        0 <= i < 8 ==> #[trigger] coefficient(term_of(equations(c)[i]), x, off) == unit_at(x, off, o, i)
    &&& forall|i: int, x: Seq<char>|
        0 <= i < 8 && #[trigger] term_mentions(term_of(equations(c)[i]), x) ==> x == o
    &&& forall|i: int| 0 <= i < 8 ==> #[trigger] term_leaves(term_of(equations(c)[i])) <= 1
}

/// `c` states `a.s - b.s = 0` for each of the eight components `s`.
pub open spec fn equates(c: Constraint, a: Seq<char>, b: Seq<char>) -> bool {
    &&& equations(c).len() == 8
    &&& forall|i: int, env: Map<Seq<char>, Seq<int>>|
        0 <= i < 8 ==> #[trigger] term_value(*equations(c)[i].term, env) == env[a][i] - env[b][i]
    &&& forall|i: int| 0 <= i < 8 ==> #[trigger] equations(c)[i].value == 0
    &&& forall|i: int, x: Seq<char>, off: int|
        0 <= i < 8 ==> #[trigger] coefficient(term_of(equations(c)[i]), x, off) == unit_at(x, off, a, i) - unit_at(x, off, b, i)
    &&& forall|i: int, x: Seq<char>|
        0 <= i < 8 && #[trigger] term_mentions(term_of(equations(c)[i]), x) ==> x == a || x == b
    &&& forall|i: int| 0 <= i < 8 ==> #[trigger] term_leaves(term_of(equations(c)[i])) <= 2
}

/// `c` states `lhs.sp - (rhs.sp + rep.sp) = 0` and `lhs.bu - rhs.bu = 0` for
/// each SI dimension.
pub open spec fn repairable(c: Constraint, lhs: Seq<char>, rhs: Seq<char>, rep: Seq<char>) -> bool {
    &&& equations(c).len() == 8
    &&& forall|env: Map<Seq<char>, Seq<int>>|
        #[trigger] term_value(*equations(c)[0].term, env) == env[lhs][0] - (env[rhs][0] + env[rep][0])
    &&& forall|i: int, env: Map<Seq<char>, Seq<int>>|
        1 <= i < 8 ==> #[trigger] term_value(*equations(c)[i].term, env) == env[lhs][i] - env[rhs][i]
    &&& forall|i: int| 0 <= i < 8 ==> #[trigger] equations(c)[i].value == 0
    &&& forall|i: int, x: Seq<char>, off: int|
        0 <= i < 8 ==> #[trigger] coefficient(term_of(equations(c)[i]), x, off) == if i == 0 {
            unit_at(x, off, lhs, 0) - (unit_at(x, off, rhs, 0) + unit_at(x, off, rep, 0))
        } else {
            unit_at(x, off, lhs, i) - unit_at(x, off, rhs, i)
        }
    &&& forall|i: int, x: Seq<char>|
        0 <= i < 8 && #[trigger] term_mentions(term_of(equations(c)[i]), x) ==> x == lhs || x == rhs || (i == 0 && x == rep)
    &&& forall|i: int| 0 <= i < 8 ==> #[trigger] term_leaves(term_of(equations(c)[i])) <= 3
}

/// `c` states `res.s - (a.s + b.s) = 0` for each of the eight components.
pub open spec fn multiplies(c: Constraint, res: Seq<char>, a: Seq<char>, b: Seq<char>) -> bool {
    &&& equations(c).len() == 8
    &&& forall|i: int, env: Map<Seq<char>, Seq<int>>|
        0 <= i < 8 ==> #[trigger] term_value(*equations(c)[i].term, env) == env[res][i] - (env[a][i]
            + env[b][i])
    &&& forall|i: int| 0 <= i < 8 ==> #[trigger] equations(c)[i].value == 0
    &&& forall|i: int, x: Seq<char>, off: int|
        0 <= i < 8 ==> #[trigger] coefficient(term_of(equations(c)[i]), x, off) == unit_at(x, off, res, i) - (unit_at(x, off, a, i) + unit_at(x, off, b, i))
    &&& forall|i: int, x: Seq<char>|
        0 <= i < 8 && #[trigger] term_mentions(term_of(equations(c)[i]), x) ==> x == res || x == a || x == b
    &&& forall|i: int| 0 <= i < 8 ==> #[trigger] term_leaves(term_of(equations(c)[i])) <= 3
}

/// `c` states `res.sp - (a.sp + b.sp) = 0` and `res.bu + (b.bu - a.bu) = 0`
/// for each SI dimension.
pub open spec fn divides(c: Constraint, res: Seq<char>, a: Seq<char>, b: Seq<char>) -> bool {
    &&& equations(c).len() == 8
    &&& forall|env: Map<Seq<char>, Seq<int>>|
        #[trigger] term_value(*equations(c)[0].term, env) == env[res][0] - (env[a][0] + env[b][0])
    &&& forall|i: int, env: Map<Seq<char>, Seq<int>>|
        1 <= i < 8 ==> #[trigger] term_value(*equations(c)[i].term, env) == env[res][i] + (env[b][i]
            - env[a][i])
    &&& forall|i: int| 0 <= i < 8 ==> #[trigger] equations(c)[i].value == 0
    &&& forall|i: int, x: Seq<char>, off: int|
        0 <= i < 8 ==> #[trigger] coefficient(term_of(equations(c)[i]), x, off) == if i == 0 {
            unit_at(x, off, res, 0) - (unit_at(x, off, a, 0) + unit_at(x, off, b, 0))
        } else {
            unit_at(x, off, res, i) + (unit_at(x, off, b, i) - unit_at(x, off, a, i))
        }
    &&& forall|i: int, x: Seq<char>|
        0 <= i < 8 && #[trigger] term_mentions(term_of(equations(c)[i]), x) ==> x == res || x == a || x == b
    &&& forall|i: int| 0 <= i < 8 ==> #[trigger] term_leaves(term_of(equations(c)[i])) <= 3
}

fn add_term(x: Rc<Term>, y: Rc<Term>) -> (r: Rc<Term>)
    ensures
        forall|l: Seq<char>, off: int| #[trigger] coefficient(*r, l, off) == coefficient(*x, l, off) + coefficient(*y, l, off),
        forall|l: Seq<char>| #[trigger] term_mentions(*r, l) == (term_mentions(*x, l) || term_mentions(*y, l)),
        term_leaves(*r) == term_leaves(*x) + term_leaves(*y),
        forall|env: Map<Seq<char>, Seq<int>>| #[trigger] term_value(*r, env) == term_value(*x, env) + term_value(*y, env),
{
    let r = Rc::new(Term::Add(x, y));
    assert(forall|env: Map<Seq<char>, Seq<int>>| term_value(*r, env) == term_value(*x, env) + term_value(*y, env));
    assert(forall|l: Seq<char>, off: int| coefficient(*r, l, off) == coefficient(*x, l, off) + coefficient(*y, l, off));
    assert(forall|l: Seq<char>| term_mentions(*r, l) == (term_mentions(*x, l) || term_mentions(*y, l)));
    r
}

fn sub_term(x: Rc<Term>, y: Rc<Term>) -> (r: Rc<Term>)
    ensures
        forall|l: Seq<char>, off: int| #[trigger] coefficient(*r, l, off) == coefficient(*x, l, off) - coefficient(*y, l, off),
        forall|l: Seq<char>| #[trigger] term_mentions(*r, l) == (term_mentions(*x, l) || term_mentions(*y, l)),
        term_leaves(*r) == term_leaves(*x) + term_leaves(*y),
        forall|env: Map<Seq<char>, Seq<int>>| #[trigger] term_value(*r, env) == term_value(*x, env) - term_value(*y, env),
{
    let r = Rc::new(Term::Sub(x, y));
    assert(forall|env: Map<Seq<char>, Seq<int>>| term_value(*r, env) == term_value(*x, env) - term_value(*y, env));
    assert(forall|l: Seq<char>, off: int| coefficient(*r, l, off) == coefficient(*x, l, off) - coefficient(*y, l, off));
    assert(forall|l: Seq<char>| term_mentions(*r, l) == (term_mentions(*x, l) || term_mentions(*y, l)));
    r
}

/// The vector of a literal whose scalar prefix is `log_value`: no dimension.
pub open spec fn literal_vector(log_value: int) -> Seq<int> {
    seq![log_value, 0, 0, 0, 0, 0, 0, 0]
}

fn pin_components(v: &Vec<i64>, obj: Rc<Object>) -> (r: Rc<Constraint>)
    requires
        v.len() == 8,
    ensures
        pins_vector(*r, v@.map_values(|x: i64| x as int), obj.label@),
{
    let mut eqs: Vec<Rc<Equation>> = Vec::new();
    let mut i: usize = 0;
    while i < COLUMNS_PER_OBJECT
        invariant
            i <= 8,
            v.len() == 8,
            eqs.len() == i,
            forall|k: int, env: Map<Seq<char>, Seq<int>>|
                0 <= k < i ==> #[trigger] term_value(*eqs@[k].term, env) == env[obj.label@][k],
            forall|k: int| 0 <= k < i ==> #[trigger] eqs@[k].value == v@[k],
            forall|k: int, x: Seq<char>, off: int|
                0 <= k < i ==> #[trigger] coefficient(term_of(*eqs@[k]), x, off) == unit_at(x, off, obj.label@, k),
            forall|k: int, x: Seq<char>|
                0 <= k < i && #[trigger] term_mentions(term_of(*eqs@[k]), x) ==> x == obj.label@,
            forall|k: int| 0 <= k < i ==> #[trigger] term_leaves(term_of(*eqs@[k])) <= 1,
        decreases 8 - i,
    {
        let term = component(&obj, i);
        eqs.push(Rc::new(Equation { term, value: v[i] }));
        i = i + 1;
    }
    conjunction(&eqs)
}

/// The constraint that pins every component of `obj` to the type `t`.
pub fn type_to_constraint(t: &Type, obj: Rc<Object>) -> (r: Rc<Constraint>)
    ensures
        pins_vector(*r, type_vector(*t), obj.label@),
{
    let mut v: Vec<i64> = Vec::new();
    v.push(t.scalar_prefix);
    let mut d: usize = 0;
    while d < NUM_BASE_UNITS
        invariant
            d <= 7,
            v.len() == d + 1,
            forall|k: int| 0 <= k < v.len() ==> #[trigger] v@[k] as int == type_vector(*t)[k],
        decreases 7 - d,
    {
        v.push((t.si_units[d] as i64) * crate::types::VALUE_SCALE);
        d = d + 1;
    }
    assert(v@.map_values(|x: i64| x as int) =~= type_vector(*t));
    pin_components(&v, obj)
}

/// The constraint that pins the literal object `name` to scalar prefix
/// `log_value` (the fixed-point decimal logarithm of the literal) and to no
/// dimension.
pub fn assert_literal(log_value: i64, name: &str) -> (r: Rc<Constraint>)
    ensures
        pins_vector(*r, literal_vector(log_value as int), name@),
{
    let v: Vec<i64> = vec![log_value, 0, 0, 0, 0, 0, 0, 0];
    assert(v@.map_values(|x: i64| x as int) =~= literal_vector(log_value as int));
    pin_components(&v, Rc::new(Object::new(name)))
}

/// The constraint that two objects agree in every component.
pub fn assert_equal(obj1: Rc<Object>, obj2: Rc<Object>) -> (r: Rc<Constraint>)
    ensures
        equates(*r, obj1.label@, obj2.label@),
{
    let mut eqs: Vec<Rc<Equation>> = Vec::new();
    let mut i: usize = 0;
    while i < COLUMNS_PER_OBJECT
        invariant
            i <= 8,
            eqs.len() == i,
            forall|k: int, env: Map<Seq<char>, Seq<int>>|
                0 <= k < i ==> #[trigger] term_value(*eqs@[k].term, env) == env[obj1.label@][k]
                    - env[obj2.label@][k],
            forall|k: int| 0 <= k < i ==> #[trigger] eqs@[k].value == 0,
            forall|k: int, x: Seq<char>, off: int|
                0 <= k < i ==> #[trigger] coefficient(term_of(*eqs@[k]), x, off) == unit_at(x, off, obj1.label@, k) - unit_at(x, off, obj2.label@, k),
            forall|k: int, x: Seq<char>|
                0 <= k < i && #[trigger] term_mentions(term_of(*eqs@[k]), x) ==> x == obj1.label@ || x == obj2.label@,
            forall|k: int| 0 <= k < i ==> #[trigger] term_leaves(term_of(*eqs@[k])) <= 2,
        decreases 8 - i,
    {
        let term = sub_term(component(&obj1, i), component(&obj2, i));
        eqs.push(Rc::new(Equation { term, value: 0 }));
        i = i + 1;
    }
    conjunction(&eqs)
}

/// The constraint that `rhs` can be repaired into `lhs`: equal SI exponents,
/// and a scalar-prefix difference absorbed by `repair_term`.
pub fn assert_repairable(lhs: Rc<Object>, rhs: Rc<Object>, repair_term: Rc<Object>) -> (r: Rc<
    Constraint,
>)
    ensures
        repairable(*r, lhs.label@, rhs.label@, repair_term.label@),
{
    let mut eqs: Vec<Rc<Equation>> = Vec::new();
    let sum = add_term(component(&rhs, 0), component(&repair_term, 0));
    eqs.push(Rc::new(Equation { term: sub_term(component(&lhs, 0), sum), value: 0 }));
    let mut i: usize = 1;
    while i < COLUMNS_PER_OBJECT
        invariant
            1 <= i <= 8,
            eqs.len() == i,
            forall|env: Map<Seq<char>, Seq<int>>|
                #[trigger] term_value(*eqs@[0].term, env) == env[lhs.label@][0] - (env[rhs.label@][0]
                    + env[repair_term.label@][0]),
            forall|k: int, env: Map<Seq<char>, Seq<int>>|
                1 <= k < i ==> #[trigger] term_value(*eqs@[k].term, env) == env[lhs.label@][k]
                    - env[rhs.label@][k],
            forall|k: int| 0 <= k < i ==> #[trigger] eqs@[k].value == 0,
            forall|k: int, x: Seq<char>, off: int|
                0 <= k < i ==> #[trigger] coefficient(term_of(*eqs@[k]), x, off) == if k == 0 {
                        unit_at(x, off, lhs.label@, 0) - (unit_at(x, off, rhs.label@, 0) + unit_at(x, off, repair_term.label@, 0))
                    } else {
                        unit_at(x, off, lhs.label@, k) - unit_at(x, off, rhs.label@, k)
                    },
            forall|k: int, x: Seq<char>|
                0 <= k < i && #[trigger] term_mentions(term_of(*eqs@[k]), x) ==> x == lhs.label@ || x == rhs.label@ || (k == 0 && x == repair_term.label@),
            forall|k: int| 0 <= k < i ==> #[trigger] term_leaves(term_of(*eqs@[k])) <= 3,
        decreases 8 - i,
    {
        let term = sub_term(component(&lhs, i), component(&rhs, i));
        eqs.push(Rc::new(Equation { term, value: 0 }));
        i = i + 1;
    }
    conjunction(&eqs)
}

/// The constraint that `result_type` is the product type of `lhs` and `rhs`.
pub fn create_multiplicative_type(result_type: Rc<Object>, lhs: Rc<Object>, rhs: Rc<Object>) -> (r:
    Rc<Constraint>)
    ensures
        multiplies(*r, result_type.label@, lhs.label@, rhs.label@),
{
    let mut eqs: Vec<Rc<Equation>> = Vec::new();
    let mut i: usize = 0;
    while i < COLUMNS_PER_OBJECT
        invariant
            i <= 8,
            eqs.len() == i,
            forall|k: int, env: Map<Seq<char>, Seq<int>>|
                0 <= k < i ==> #[trigger] term_value(*eqs@[k].term, env) == env[result_type.label@][k]
                    - (env[lhs.label@][k] + env[rhs.label@][k]),
            forall|k: int| 0 <= k < i ==> #[trigger] eqs@[k].value == 0,
            forall|k: int, x: Seq<char>, off: int|
                0 <= k < i ==> #[trigger] coefficient(term_of(*eqs@[k]), x, off) == unit_at(x, off, result_type.label@, k) - (unit_at(x, off, lhs.label@, k) + unit_at(x, off, rhs.label@, k)),
            forall|k: int, x: Seq<char>|
                0 <= k < i && #[trigger] term_mentions(term_of(*eqs@[k]), x) ==> x == result_type.label@ || x == lhs.label@ || x == rhs.label@,
            forall|k: int| 0 <= k < i ==> #[trigger] term_leaves(term_of(*eqs@[k])) <= 3,
        decreases 8 - i,
    {
        let sum = add_term(component(&lhs, i), component(&rhs, i));
        let term = sub_term(component(&result_type, i), sum);
        eqs.push(Rc::new(Equation { term, value: 0 }));
        i = i + 1;
    }
    conjunction(&eqs)
}

/// The constraint that `result_type` is the quotient type of `lhs` by `rhs`:
/// SI exponents subtract, and scalar prefixes add.
pub fn create_division_type(result_type: Rc<Object>, lhs: Rc<Object>, rhs: Rc<Object>) -> (r: Rc<
    Constraint,
>)
    ensures
        divides(*r, result_type.label@, lhs.label@, rhs.label@),
{
    let mut eqs: Vec<Rc<Equation>> = Vec::new();
    let sum = add_term(component(&lhs, 0), component(&rhs, 0));
    eqs.push(Rc::new(Equation { term: sub_term(component(&result_type, 0), sum), value: 0 }));
    let mut i: usize = 1;
    while i < COLUMNS_PER_OBJECT
        invariant
            1 <= i <= 8,
            eqs.len() == i,
            forall|env: Map<Seq<char>, Seq<int>>|
                #[trigger] term_value(*eqs@[0].term, env) == env[result_type.label@][0] - (
                env[lhs.label@][0] + env[rhs.label@][0]),
            forall|k: int, env: Map<Seq<char>, Seq<int>>|
                1 <= k < i ==> #[trigger] term_value(*eqs@[k].term, env) == env[result_type.label@][k]
                    + (env[rhs.label@][k] - env[lhs.label@][k]),
            forall|k: int| 0 <= k < i ==> #[trigger] eqs@[k].value == 0,
            forall|k: int, x: Seq<char>, off: int|
                0 <= k < i ==> #[trigger] coefficient(term_of(*eqs@[k]), x, off) == if k == 0 {
                        unit_at(x, off, result_type.label@, 0) - (unit_at(x, off, lhs.label@, 0) + unit_at(x, off, rhs.label@, 0))
                    } else {
                        unit_at(x, off, result_type.label@, k) + (unit_at(x, off, rhs.label@, k) - unit_at(x, off, lhs.label@, k))
                    },
            forall|k: int, x: Seq<char>|
                0 <= k < i && #[trigger] term_mentions(term_of(*eqs@[k]), x) ==> x == result_type.label@ || x == lhs.label@ || x == rhs.label@,
            forall|k: int| 0 <= k < i ==> #[trigger] term_leaves(term_of(*eqs@[k])) <= 3,
        decreases 8 - i,
    {
        let diff = sub_term(component(&rhs, i), component(&lhs, i));
        let term = add_term(component(&result_type, i), diff);
        eqs.push(Rc::new(Equation { term, value: 0 }));
        i = i + 1;
    }
    conjunction(&eqs)
}

/// The characters of each label.
pub open spec fn label_views(v: Seq<String>) -> Seq<Seq<char>> {
    v.map_values(|s: String| s@)
}

/// `ls` extended by the labels of a term it lacks, in order of first reference.
pub open spec fn discover_term(t: Term, ls: Seq<Seq<char>>) -> Seq<Seq<char>>
    decreases t,
{
    match t {
        Term::Add(a, b) => discover_term(*b, discover_term(*a, ls)),
        Term::Sub(a, b) => discover_term(*b, discover_term(*a, ls)),
        Term::Object(o, _) => if ls.contains(o.label@) { ls } else { ls.push(o.label@) },
    }
}

/// `ls` extended by the labels of a list of equations, in order of first
/// reference.
pub open spec fn discover_equations(s: Seq<Equation>, ls: Seq<Seq<char>>) -> Seq<Seq<char>>
    decreases s.len(),
{
    if s.len() == 0 {
        ls
    } else {
        discover_term(*s.last().term, discover_equations(s.drop_last(), ls))
    }
}

/// The equations of a list of constraints, in order.
pub open spec fn all_equations(cs: Seq<Rc<Constraint>>) -> Seq<Equation>
    decreases cs.len(),
{
    if cs.len() == 0 {
        seq![]
    } else {
        all_equations(cs.drop_last()) + equations(*cs.last())
    }
}

/// The distinct object labels of a list of constraints, in order of first
/// reference: label `k` owns the column block starting at `8 * k`.
pub open spec fn column_labels(cs: Seq<Rc<Constraint>>) -> Seq<Seq<char>> {
    discover_equations(all_equations(cs), seq![])
}

/// Some equation of the list refers to the object labelled `x`.
pub open spec fn mentioned(s: Seq<Equation>, x: Seq<char>) -> bool {
    exists|i: int| 0 <= i < s.len() && #[trigger] term_mentions(*s[i].term, x)
}

/// Cell `j` of the dense row of an equation: a coefficient in the blocks, the
/// right-hand side last.
pub open spec fn row_value(e: Equation, labels: Seq<Seq<char>>, j: int) -> int {
    if j < 8 * labels.len() {
        coefficient(*e.term, labels[j / 8], j % 8)
    } else {
        e.value as int
    }
}

/// `rows` are the dense rows of `eqs` over the column blocks of `labels`.
pub open spec fn rows_match(rows: Seq<Vec<i64>>, eqs: Seq<Equation>, labels: Seq<Seq<char>>) -> bool {
    &&& rows.len() == eqs.len()
    &&& forall|k: int| 0 <= k < rows.len() ==> #[trigger] rows[k]@.len() == 8 * labels.len() + 1
    &&& forall|k: int, j: int|
        0 <= k < rows.len() && 0 <= j <= 8 * labels.len() ==> #[trigger] rows[k]@[j] as int == row_value(
            eqs[k],
            labels,
            j,
        )
}

/// The limits of the machine that linearizing a list of constraints needs: a
/// row's width fits in `usize`, and every coefficient in `i64`.
pub open spec fn linear_system_fits(cs: Seq<Rc<Constraint>>) -> bool {
    &&& 8 * column_labels(cs).len() + 1 <= usize::MAX
    &&& forall|i: int| 0 <= i < all_equations(cs).len() ==> #[trigger] term_leaves(term_of(all_equations(cs)[i])) <= i64::MAX
}

proof fn lemma_push_contains(ls: Seq<Seq<char>>, l: Seq<char>)
    ensures
        forall|x: Seq<char>| #[trigger] ls.push(l).contains(x) <==> (ls.contains(x) || x == l),
        !ls.contains(l) && ls.no_duplicates() ==> ls.push(l).no_duplicates(),
{
    assert forall|x: Seq<char>| #[trigger] ls.push(l).contains(x) <==> (ls.contains(x) || x == l) by {
        if ls.contains(x) {
            let i = choose|i: int| 0 <= i < ls.len() && ls[i] == x;
            assert(ls.push(l)[i] == x);
        }
        if x == l {
            assert(ls.push(l)[ls.len() as int] == x);
        }
    }
}

proof fn lemma_discover_term(t: Term, ls: Seq<Seq<char>>)
    ensures
        forall|x: Seq<char>| #[trigger] discover_term(t, ls).contains(x) <==> (ls.contains(x) || term_mentions(t, x)),
        ls.no_duplicates() ==> discover_term(t, ls).no_duplicates(),
    decreases t,
{
    if let Term::Object(o, _) = t {
        lemma_push_contains(ls, o.label@);
    } else {
        lemma_discover_term(left_of(t), ls);
        lemma_discover_term(right_of(t), discover_term(left_of(t), ls));
        assert(discover_term(t, ls) == discover_term(right_of(t), discover_term(left_of(t), ls)));
        assert(forall|x: Seq<char>| #[trigger] term_mentions(t, x) == (term_mentions(left_of(t), x) || term_mentions(right_of(t), x)));
    }
}

proof fn lemma_discover_equations(s: Seq<Equation>, ls: Seq<Seq<char>>)
    ensures
        forall|x: Seq<char>| #[trigger] discover_equations(s, ls).contains(x) <==> (ls.contains(x) || mentioned(s, x)),
        ls.no_duplicates() ==> discover_equations(s, ls).no_duplicates(),
    decreases s.len(),
{
    if s.len() > 0 {
        let prev = discover_equations(s.drop_last(), ls);
        lemma_discover_equations(s.drop_last(), ls);
        lemma_discover_term(term_of(s.last()), prev);
        assert forall|x: Seq<char>| #[trigger] mentioned(s, x) <==> (mentioned(s.drop_last(), x) || term_mentions(*s.last().term, x)) by {
            if mentioned(s, x) {
                let i = choose|i: int| 0 <= i < s.len() && #[trigger] term_mentions(*s[i].term, x);
                if i < s.len() - 1 {
                    assert(term_mentions(*s.drop_last()[i].term, x));
                }
            }
            if mentioned(s.drop_last(), x) {
                let i = choose|i: int| 0 <= i < s.drop_last().len() && #[trigger] term_mentions(*s.drop_last()[i].term, x);
                assert(term_mentions(*s[i].term, x));
            }
            if term_mentions(*s.last().term, x) {
                assert(term_mentions(*s[s.len() - 1].term, x));
            }
        }
    }
}

proof fn lemma_discover_append(s1: Seq<Equation>, s2: Seq<Equation>, ls: Seq<Seq<char>>)
    ensures
        discover_equations(s1 + s2, ls) == discover_equations(s2, discover_equations(s1, ls)),
    decreases s2.len(),
{
    if s2.len() == 0 {
        assert(s1 + s2 =~= s1);
    } else {
        lemma_discover_append(s1, s2.drop_last(), ls);
        assert((s1 + s2).drop_last() =~= s1 + s2.drop_last());
    }
}

proof fn lemma_all_equations_append(a: Seq<Rc<Constraint>>, b: Seq<Rc<Constraint>>)
    ensures
        all_equations(a + b) == all_equations(a) + all_equations(b),
    decreases b.len(),
{
    if b.len() == 0 {
        assert(a + b =~= a);
        assert(all_equations(a) + seq![] =~= all_equations(a));
    } else {
        lemma_all_equations_append(a, b.drop_last());
        let last_eqs = constraint_equations(b.last());
        assert((a + b).drop_last() =~= a + b.drop_last());
        assert(all_equations(a) + all_equations(b.drop_last()) + last_eqs =~= all_equations(a)
            + (all_equations(b.drop_last()) + last_eqs));
    }
}

proof fn lemma_coefficient_bound(t: Term, label: Seq<char>, off: int)
    ensures
        -term_leaves(t) <= coefficient(t, label, off) <= term_leaves(t),
        term_leaves(t) >= 1,
    decreases t,
{
    if !(t is Object) {
        lemma_coefficient_bound(left_of(t), label, off);
        lemma_coefficient_bound(right_of(t), label, off);
    }
}

pub(crate) fn find_label(labels: &Vec<String>, label: &String) -> (r: Option<usize>)
    ensures
        r.is_some() == label_views(labels@).contains(label@),
        r.is_some() ==> r.unwrap() < labels.len() && labels@[r.unwrap() as int]@ == label@,
{
    let mut i: usize = 0;
    while i < labels.len()
        invariant
            i <= labels.len(),
            forall|k: int| 0 <= k < i ==> labels@[k]@ != label@,
        decreases labels.len() - i,
    {
        if labels[i] == *label {
            assert(label_views(labels@)[i as int] == label@);
            return Some(i);
        }
        i = i + 1;
    }
    assert(!label_views(labels@).contains(label@)) by {
        if label_views(labels@).contains(label@) {
            let k = choose|k: int| 0 <= k < labels.len() && label_views(labels@)[k] == label@;
            assert(labels@[k]@ == label@);
        }
    }
    None
}

fn add_term_to_map(term: &Term, labels: &mut Vec<String>)
    ensures
        label_views(final(labels)@) == discover_term(*term, label_views(old(labels)@)),
    decreases term,
{
    match term {
        Term::Add(t1, t2) => {
            add_term_to_map(t1, labels);
            add_term_to_map(t2, labels);
        },
        Term::Sub(t1, t2) => {
            add_term_to_map(t1, labels);
            add_term_to_map(t2, labels);
        },
        Term::Object(o, _) => {
            if find_label(labels, &o.label).is_none() {
                labels.push(o.label.clone());
                assert(label_views(labels@) =~= label_views(old(labels)@).push(o.label@));
            }
        },
    }
}

fn add_constraint_to_map(constraint: &Constraint, labels: &mut Vec<String>)
    ensures
        label_views(final(labels)@) == discover_equations(equations(*constraint), label_views(old(labels)@)),
    decreases constraint,
{
    match constraint {
        Constraint::And(c1, c2) => {
            add_constraint_to_map(c1, labels);
            add_constraint_to_map(c2, labels);
            proof {
                lemma_discover_append(constraint_equations(*c1), constraint_equations(*c2), label_views(old(labels)@));
            }
        },
        Constraint::Equation(eq) => {
            add_term_to_map(&eq.term, labels);
            let ghost one = equations(*constraint);
            assert(one.drop_last() =~= Seq::<Equation>::empty());
            assert(discover_equations(one.drop_last(), label_views(old(labels)@)) == label_views(old(labels)@));
            assert(discover_equations(one, label_views(old(labels)@)) == discover_term(term_of(one.last()), label_views(old(labels)@)));
        },
    }
}

/// The labels of the objects of a list of constraints, without repetition, in
/// order of first reference: the object of label `k` owns column block `k`.
fn constraint_objects_to_column_numbers(constraints: &Vec<Rc<Constraint>>) -> (r: Vec<String>)
    ensures
        label_views(r@) == column_labels(constraints@),
{
    let mut result: Vec<String> = Vec::new();
    let mut i: usize = 0;
    assert(label_views(result@) =~= Seq::<Seq<char>>::empty());
    assert(constraints@.take(0) =~= Seq::<Rc<Constraint>>::empty());
    while i < constraints.len()
        invariant
            i <= constraints.len(),
            label_views(result@) == column_labels(constraints@.take(i as int)),
        decreases constraints.len() - i,
    {
        add_constraint_to_map(&constraints[i], &mut result);
        proof {
            let cs = constraints@.take(i + 1);
            assert(cs.drop_last() =~= constraints@.take(i as int));
            lemma_discover_append(all_equations(cs.drop_last()), constraint_equations(cs.last()), seq![]);
        }
        i = i + 1;
    }
    assert(constraints@.take(constraints.len() as int) =~= constraints@);
    result
}

fn add_term_to_row(term: &Term, labels: &Vec<String>, negate: bool, row: &mut Vec<i64>)
    requires
        label_views(labels@).no_duplicates(),
        old(row).len() == 8 * labels.len() + 1,
        forall|x: Seq<char>| #[trigger] term_mentions(*term, x) ==> label_views(labels@).contains(x),
        term_leaves(*term) <= i64::MAX,
        forall|j: int|
            0 <= j < 8 * labels.len() ==> -(i64::MAX - term_leaves(*term)) <= #[trigger] old(row)@[j]
                <= i64::MAX - term_leaves(*term),
    ensures
        final(row).len() == old(row).len(),
        forall|j: int|
            0 <= j < 8 * labels.len() ==> #[trigger] final(row)@[j] as int == if negate {
                old(row)@[j] - coefficient(*term, label_views(labels@)[j / 8], j % 8)
            } else {
                old(row)@[j] + coefficient(*term, label_views(labels@)[j / 8], j % 8)
            },
        final(row)@[8 * labels.len() as int] == old(row)@[8 * labels.len() as int],
    decreases term,
{
    let ghost lv = label_views(labels@);
    let ghost n = 8 * labels.len();
    match term {
        Term::Add(t1, t2) => {
            proof {
                lemma_coefficient_bound(shared_term(t1), seq![], 0);
                lemma_coefficient_bound(shared_term(t2), seq![], 0);
                assert forall|x: Seq<char>| #[trigger] term_mentions(shared_term(t1), x) implies lv.contains(x) by {
                    assert(term_mentions(*term, x));
                }
                assert forall|x: Seq<char>| #[trigger] term_mentions(shared_term(t2), x) implies lv.contains(x) by {
                    assert(term_mentions(*term, x));
                }
            }
            add_term_to_row(t1, labels, negate, row);
            assert forall|j: int| 0 <= j < n implies -(i64::MAX - term_leaves(**t2)) <= #[trigger] row@[j]
                <= i64::MAX - term_leaves(**t2) by {
                lemma_coefficient_bound(shared_term(t1), lv[j / 8], j % 8);
            }
            let ghost mid = row@;
            add_term_to_row(t2, labels, negate, row);
            assert forall|j: int| 0 <= j < n implies #[trigger] row@[j] as int == if negate {
                old(row)@[j] - coefficient(*term, lv[j / 8], j % 8)
            } else {
                old(row)@[j] + coefficient(*term, lv[j / 8], j % 8)
            } by {
                assert(mid[j] as int == if negate {
                    old(row)@[j] - coefficient(**t1, lv[j / 8], j % 8)
                } else {
                    old(row)@[j] + coefficient(**t1, lv[j / 8], j % 8)
                });
            }
        },
        Term::Sub(t1, t2) => {
            proof {
                lemma_coefficient_bound(shared_term(t1), seq![], 0);
                lemma_coefficient_bound(shared_term(t2), seq![], 0);
                assert forall|x: Seq<char>| #[trigger] term_mentions(shared_term(t1), x) implies lv.contains(x) by {
                    assert(term_mentions(*term, x));
                }
                assert forall|x: Seq<char>| #[trigger] term_mentions(shared_term(t2), x) implies lv.contains(x) by {
                    assert(term_mentions(*term, x));
                }
            }
            add_term_to_row(t1, labels, negate, row);
            assert forall|j: int| 0 <= j < n implies -(i64::MAX - term_leaves(**t2)) <= #[trigger] row@[j]
                <= i64::MAX - term_leaves(**t2) by {
                lemma_coefficient_bound(shared_term(t1), lv[j / 8], j % 8);
            }
            let ghost mid = row@;
            add_term_to_row(t2, labels, !negate, row);
            assert forall|j: int| 0 <= j < n implies #[trigger] row@[j] as int == if negate {
                old(row)@[j] - coefficient(*term, lv[j / 8], j % 8)
            } else {
                old(row)@[j] + coefficient(*term, lv[j / 8], j % 8)
            } by {
                assert(mid[j] as int == if negate {
                    old(row)@[j] - coefficient(**t1, lv[j / 8], j % 8)
                } else {
                    old(row)@[j] + coefficient(**t1, lv[j / 8], j % 8)
                });
            }
        },
        Term::Object(object, selector) => {
            assert(term_mentions(*term, object.label@));
            let idx = match find_label(labels, &object.label) {
                Some(i) => i,
                None => {
                    return ;
                },
            };
            let off: usize = match selector {
                Selector::BaseUnit(bu) => bu.into_usize() + 1,
                Selector::ScalarPrefix => 0,
            };
            let pos = idx * COLUMNS_PER_OBJECT + off;
            if negate {
                row[pos] = row[pos] - 1;
            } else {
                row[pos] = row[pos] + 1;
            }
            assert forall|j: int| 0 <= j < n implies #[trigger] row@[j] as int == if negate {
                old(row)@[j] - coefficient(*term, lv[j / 8], j % 8)
            } else {
                old(row)@[j] + coefficient(*term, lv[j / 8], j % 8)
            } by {
                assert(lv[idx as int] == object.label@);
                if lv[j / 8] == object.label@ {
                    assert(j / 8 == idx);
                }
            }
        },
    }
}

fn add_constraint_to_system(constraint: &Constraint, labels: &Vec<String>, system: &mut Vec<Vec<i64>>)
    requires
        label_views(labels@).no_duplicates(),
        8 * labels.len() + 1 <= usize::MAX,
        forall|k: int, x: Seq<char>|
            0 <= k < equations(*constraint).len() && #[trigger] term_mentions(term_of(equations(*constraint)[k]), x)
                ==> label_views(labels@).contains(x),
        forall|k: int|
            0 <= k < equations(*constraint).len() ==> #[trigger] term_leaves(term_of(equations(*constraint)[k]))
                <= i64::MAX,
    ensures
        final(system)@.len() == old(system)@.len() + equations(*constraint).len(),
        forall|k: int| 0 <= k < old(system)@.len() ==> #[trigger] final(system)@[k] == old(system)@[k],
        rows_match(final(system)@.skip(old(system)@.len() as int), equations(*constraint), label_views(labels@)),
    decreases constraint,
{
    let ghost lv = label_views(labels@);
    match constraint {
        Constraint::And(c1, c2) => {
            let ghost e1 = constraint_equations(*c1);
            let ghost e2 = constraint_equations(*c2);
            assert(equations(*constraint) == e1 + e2);
            assert forall|k: int, x: Seq<char>| 0 <= k < e2.len() && #[trigger] term_mentions(term_of(e2[k]), x)
                implies lv.contains(x) by {
                assert(equations(*constraint)[e1.len() + k] == e2[k]);
            }
            assert forall|k: int| 0 <= k < e2.len() implies #[trigger] term_leaves(term_of(e2[k])) <= i64::MAX by {
                assert(equations(*constraint)[e1.len() + k] == e2[k]);
            }
            assert forall|k: int| 0 <= k < e1.len() implies #[trigger] term_leaves(term_of(e1[k])) <= i64::MAX by {
                assert(equations(*constraint)[k] == e1[k]);
            }
            assert forall|k: int, x: Seq<char>| 0 <= k < e1.len() && #[trigger] term_mentions(term_of(e1[k]), x)
                implies lv.contains(x) by {
                assert(equations(*constraint)[k] == e1[k]);
            }
            add_constraint_to_system(c1, labels, system);
            let ghost mid = system@;
            add_constraint_to_system(c2, labels, system);
            let ghost added = system@.skip(old(system)@.len() as int);
            assert forall|k: int| 0 <= k < e1.len() implies #[trigger] added[k] == mid.skip(
                old(system)@.len() as int,
            )[k] by {}
            assert forall|k: int| 0 <= k < e2.len() implies #[trigger] added[e1.len() + k] == system@.skip(
                mid.len() as int,
            )[k] by {}
            assert forall|k: int| 0 <= k < added.len() implies #[trigger] added[k]@.len() == 8 * lv.len() + 1 by {
                if k < e1.len() {
                    assert(added[k] == mid.skip(old(system)@.len() as int)[k]);
                } else {
                    assert(added[e1.len() + (k - e1.len())] == system@.skip(mid.len() as int)[k - e1.len()]);
                }
            }
            assert forall|k: int, j: int| 0 <= k < added.len() && 0 <= j <= 8 * lv.len() implies #[trigger] added[k]@[j]
                as int == row_value((e1 + e2)[k], lv, j) by {
                if k < e1.len() {
                    assert(added[k] == mid.skip(old(system)@.len() as int)[k]);
                } else {
                    assert(added[e1.len() + (k - e1.len())] == system@.skip(mid.len() as int)[k - e1.len()]);
                }
            }
        },
        Constraint::Equation(eq) => {
            let ghost e = shared_equation(eq);
            assert(equations(*constraint)[0] == e);
            assert(forall|x: Seq<char>| #[trigger] term_mentions(term_of(e), x) ==> lv.contains(x));
            let width = COLUMNS_PER_OBJECT * labels.len() + 1;
            let mut eq_row: Vec<i64> = Vec::new();
            while eq_row.len() < width
                invariant
                    eq_row.len() <= width,
                    forall|j: int| 0 <= j < eq_row.len() ==> #[trigger] eq_row@[j] == 0,
                decreases width - eq_row.len(),
            {
                eq_row.push(0);
            }
            let last_idx = width - 1;
            eq_row[last_idx] = eq.value;
            proof {
                lemma_coefficient_bound(term_of(e), seq![], 0);
            }
            add_term_to_row(&eq.term, labels, false, &mut eq_row);
            system.push(eq_row);
            let ghost added = system@.skip(old(system)@.len() as int);
            assert(added.len() == 1 && added[0] == eq_row);
            assert forall|k: int, j: int| 0 <= k < added.len() && 0 <= j <= 8 * lv.len() implies #[trigger] added[k]@[j]
                as int == row_value(equations(*constraint)[k], lv, j) by {
                assert(k == 0);
            }
        },
    }
}

/// Flattens a list of constraints into dense rows. Each distinct object gets
/// a column block of [`COLUMNS_PER_OBJECT`] columns, in order of first
/// reference (the second result names the object of each block); each
/// equation gives one row of coefficients followed by its right-hand side.
pub fn constraint_system_to_linear_system(constraints: &Vec<Rc<Constraint>>) -> (r: (
    Vec<Vec<i64>>,
    Vec<String>,
))
    requires
        linear_system_fits(constraints@),
    ensures
        label_views(r.1@) == column_labels(constraints@),
        label_views(r.1@).no_duplicates(),
        forall|x: Seq<char>| #[trigger] label_views(r.1@).contains(x) <==> mentioned(all_equations(constraints@), x),
        rows_match(r.0@, all_equations(constraints@), label_views(r.1@)),
{
    let labels = constraint_objects_to_column_numbers(constraints);
    let ghost lv = label_views(labels@);
    let ghost all = all_equations(constraints@);
    proof {
        lemma_discover_equations(all, seq![]);
    }
    let mut system: Vec<Vec<i64>> = Vec::new();
    let mut i: usize = 0;
    assert(constraints@.take(0) =~= Seq::<Rc<Constraint>>::empty());
    while i < constraints.len()
        invariant
            i <= constraints.len(),
            lv == label_views(labels@),
            lv.no_duplicates(),
            8 * labels.len() + 1 <= usize::MAX,
            all == all_equations(constraints@),
            forall|x: Seq<char>| #[trigger] lv.contains(x) <==> mentioned(all, x),
            forall|k: int| 0 <= k < all.len() ==> #[trigger] term_leaves(term_of(all[k])) <= i64::MAX,
            rows_match(system@, all_equations(constraints@.take(i as int)), lv),
        decreases constraints.len() - i,
    {
        let ghost prefix = all_equations(constraints@.take(i as int));
        let ghost here = constraint_equations(constraints@[i as int]);
        proof {
            let cs = constraints@.take(i + 1);
            assert(cs.drop_last() =~= constraints@.take(i as int));
            assert(all_equations(cs) == prefix + here);
            lemma_all_equations_append(cs, constraints@.skip(i + 1));
            assert(cs + constraints@.skip(i + 1) =~= constraints@);
            assert forall|k: int| 0 <= k < here.len() implies all[prefix.len() + k] == #[trigger] here[k] by {
                assert((prefix + here)[prefix.len() + k] == here[k]);
            }
            assert forall|k: int, x: Seq<char>| 0 <= k < here.len() && #[trigger] term_mentions(term_of(here[k]), x)
                implies lv.contains(x) by {
                assert(all[prefix.len() + k] == here[k]);
                assert(term_mentions(term_of(all[prefix.len() + k]), x));
            }
            assert forall|k: int| 0 <= k < here.len() implies #[trigger] term_leaves(term_of(here[k])) <= i64::MAX by {
                assert(all[prefix.len() + k] == here[k]);
            }
        }
        let ghost before = system@;
        add_constraint_to_system(&constraints[i], &labels, &mut system);
        proof {
            let cs = constraints@.take(i + 1);
            assert(cs.drop_last() =~= constraints@.take(i as int));
            let now = all_equations(cs);
            assert(now == prefix + here);
            assert forall|k: int| 0 <= k < system@.len() implies #[trigger] system@[k]@.len() == 8 * lv.len() + 1 by {
                if k >= before.len() {
                    assert(system@[k] == system@.skip(before.len() as int)[k - before.len()]);
                }
            }
            assert forall|k: int, j: int| 0 <= k < system@.len() && 0 <= j <= 8 * lv.len() implies #[trigger] system@[k]@[j]
                as int == row_value(now[k], lv, j) by {
                if k >= before.len() {
                    assert(system@[k] == system@.skip(before.len() as int)[k - before.len()]);
                }
            }
        }
        i = i + 1;
    }
    assert(constraints@.take(constraints.len() as int) =~= constraints@);
    (system, labels)
}

/// One more than the largest `i64`: leaf counts are capped there.
const LEAF_CAP: u64 = 0x8000_0000_0000_0000;

fn capped_leaves(t: &Term) -> (r: u64)
    ensures
        r as int == if term_leaves(*t) < LEAF_CAP { term_leaves(*t) } else { LEAF_CAP as int },
    decreases t,
{
    match t {
        Term::Add(a, b) => {
            let x = capped_leaves(a);
            let y = capped_leaves(b);
            if x >= LEAF_CAP - y { LEAF_CAP } else { x + y }
        },
        Term::Sub(a, b) => {
            let x = capped_leaves(a);
            let y = capped_leaves(b);
            if x >= LEAF_CAP - y { LEAF_CAP } else { x + y }
        },
        Term::Object(_, _) => 1,
    }
}

fn leaves_fit(constraint: &Constraint) -> (r: bool)
    ensures
        r == forall|k: int|
            0 <= k < equations(*constraint).len() ==> #[trigger] term_leaves(term_of(equations(*constraint)[k]))
                <= i64::MAX,
    decreases constraint,
{
    match constraint {
        Constraint::And(c1, c2) => {
            let ghost e1 = constraint_equations(*c1);
            let ghost e2 = constraint_equations(*c2);
            assert(equations(*constraint) == e1 + e2);
            let x = leaves_fit(c1);
            let y = leaves_fit(c2);
            proof {
                if !x {
                    let k = choose|k: int| 0 <= k < e1.len() && !(term_leaves(term_of(e1[k])) <= i64::MAX);
                    assert(equations(*constraint)[k] == e1[k]);
                }
                if !y {
                    let k = choose|k: int| 0 <= k < e2.len() && !(term_leaves(term_of(e2[k])) <= i64::MAX);
                    assert(equations(*constraint)[e1.len() + k] == e2[k]);
                }
                if x && y {
                    assert forall|k: int| 0 <= k < equations(*constraint).len() implies #[trigger] term_leaves(
                        term_of(equations(*constraint)[k]),
                    ) <= i64::MAX by {
                        if k >= e1.len() {
                            assert(term_leaves(term_of(e2[k - e1.len()])) <= i64::MAX);
                        } else {
                            assert(term_leaves(term_of(e1[k])) <= i64::MAX);
                        }
                    }
                }
            }
            x && y
        },
        Constraint::Equation(eq) => {
            let ghost e = shared_equation(eq);
            assert(equations(*constraint) == seq![e]);
            let r = capped_leaves(&eq.term) < LEAF_CAP;
            assert(r == (term_leaves(term_of(e)) <= i64::MAX));
            proof {
                if !r {
                    assert(!(term_leaves(term_of(equations(*constraint)[0])) <= i64::MAX));
                }
            }
            r
        },
    }
}

/// Whether a list of constraints is within the machine limits that
/// [`constraint_system_to_linear_system`] needs.
pub fn fits_linear_system(constraints: &Vec<Rc<Constraint>>) -> (r: bool)
    ensures
        r == linear_system_fits(constraints@),
{
    let labels = constraint_objects_to_column_numbers(constraints);
    let ghost all = all_equations(constraints@);
    let mut ok = true;
    let mut i: usize = 0;
    assert(constraints@.take(0) =~= Seq::<Rc<Constraint>>::empty());
    while i < constraints.len()
        invariant
            i <= constraints.len(),
            all == all_equations(constraints@),
            ok == forall|k: int|
                0 <= k < all_equations(constraints@.take(i as int)).len() ==> #[trigger] term_leaves(
                    term_of(all_equations(constraints@.take(i as int))[k]),
                ) <= i64::MAX,
        decreases constraints.len() - i,
    {
        let ghost prefix = all_equations(constraints@.take(i as int));
        let ghost here = constraint_equations(constraints@[i as int]);
        let fit = leaves_fit(&constraints[i]);
        proof {
            let cs = constraints@.take(i + 1);
            assert(cs.drop_last() =~= constraints@.take(i as int));
            let now = all_equations(cs);
            assert(now == prefix + here);
            if !ok {
                let k = choose|k: int| 0 <= k < prefix.len() && !(term_leaves(term_of(prefix[k])) <= i64::MAX);
                assert(now[k] == prefix[k]);
            }
            if !fit {
                let k = choose|k: int| 0 <= k < here.len() && !(term_leaves(term_of(here[k])) <= i64::MAX);
                assert(now[prefix.len() + k] == here[k]);
            }
            if ok && fit {
                assert forall|k: int| 0 <= k < now.len() implies #[trigger] term_leaves(term_of(now[k])) <= i64::MAX by {
                    if k >= prefix.len() {
                        assert(term_leaves(term_of(here[k - prefix.len()])) <= i64::MAX);
                    } else {
                        assert(term_leaves(term_of(prefix[k])) <= i64::MAX);
                    }
                }
            }
        }
        ok = ok && fit;
        i = i + 1;
    }
    assert(constraints@.take(constraints.len() as int) =~= constraints@);
    let n = labels.len();
    assert(column_labels(constraints@).len() == n);
    assert(all_equations(constraints@.take(constraints.len() as int)) == all);
    let small = n <= (usize::MAX - 1) / COLUMNS_PER_OBJECT;
    assert(small <==> 8 * n + 1 <= usize::MAX) by (nonlinear_arith)
        requires
            small == (n <= (usize::MAX - 1) / 8),
    ;
    let r = ok && small;
    assert(ok == forall|k: int| 0 <= k < all.len() ==> #[trigger] term_leaves(term_of(all[k])) <= i64::MAX);
    assert(small == (8 * column_labels(constraints@).len() + 1 <= usize::MAX));
    r
}

} // verus!
