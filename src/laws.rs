use vstd::prelude::*;

use crate::constraints::{Constraint, equations, holds, multiplies, pins_vector, repairable, term_value};
use crate::types::{type_vector, Type};

verus! {

/// A type constraint on `o` holds exactly when every component of `o` equals
/// the matching component of the type: in particular, a vector that matches
/// the type leaves no residual.
pub proof fn lemma_type_constraint_exact(c: Constraint, t: Type, o: Seq<char>, env: Map<Seq<char>, Seq<int>>)
    requires
        pins_vector(c, type_vector(t), o),
    ensures
        holds(c, env) <==> (forall|i: int| 0 <= i < 8 ==> #[trigger] env[o][i] == type_vector(t)[i]),
{
    if holds(c, env) {
        assert forall|i: int| 0 <= i < 8 implies #[trigger] env[o][i] == type_vector(t)[i] by {
            assert(term_value(*equations(c)[i].term, env) == equations(c)[i].value);
        }
    }
    if forall|i: int| 0 <= i < 8 ==> #[trigger] env[o][i] == type_vector(t)[i] {
        assert forall|i: int| 0 <= i < equations(c).len() implies #[trigger] term_value(
            *equations(c)[i].term,
            env,
        ) == equations(c)[i].value by {
            assert(env[o][i] == type_vector(t)[i]);
        }
    }
}

/// When both factors are pinned, the product constraint holds exactly when
/// the result is the component-wise sum of the two pinned vectors, scalar
/// prefix and SI exponents alike.
pub proof fn lemma_product_of_pinned(
    c: Constraint,
    ca: Constraint,
    cb: Constraint,
    res: Seq<char>,
    a: Seq<char>,
    b: Seq<char>,
    va: Seq<int>,
    vb: Seq<int>,
    env: Map<Seq<char>, Seq<int>>,
)
    requires
        multiplies(c, res, a, b),
        pins_vector(ca, va, a),
        pins_vector(cb, vb, b),
        holds(ca, env),
        holds(cb, env),
    ensures
        holds(c, env) <==> (forall|i: int| 0 <= i < 8 ==> #[trigger] env[res][i] == va[i] + vb[i]),
{
    assert forall|i: int| 0 <= i < 8 implies #[trigger] env[a][i] == va[i] && env[b][i] == vb[i] by {
        assert(term_value(*equations(ca)[i].term, env) == equations(ca)[i].value);
        assert(term_value(*equations(cb)[i].term, env) == equations(cb)[i].value);
    }
    if holds(c, env) {
        assert forall|i: int| 0 <= i < 8 implies #[trigger] env[res][i] == va[i] + vb[i] by {
            assert(term_value(*equations(c)[i].term, env) == equations(c)[i].value);
            assert(env[a][i] == va[i] && env[b][i] == vb[i]);
        }
    }
    if forall|i: int| 0 <= i < 8 ==> #[trigger] env[res][i] == va[i] + vb[i] {
        assert forall|i: int| 0 <= i < equations(c).len() implies #[trigger] term_value(
            *equations(c)[i].term,
            env,
        ) == equations(c)[i].value by {
            assert(env[res][i] == va[i] + vb[i]);
            assert(env[a][i] == va[i] && env[b][i] == vb[i]);
        }
    }
}

/// A repairable constraint holds exactly when the SI exponents of `lhs` and
/// `rhs` agree and the repair's scalar prefix is `lhs.sp - rhs.sp`; when the
/// exponents differ, no repair value satisfies it.
pub proof fn lemma_repairable_exact(
    c: Constraint,
    lhs: Seq<char>,
    rhs: Seq<char>,
    rep: Seq<char>,
    env: Map<Seq<char>, Seq<int>>,
)
    requires
        repairable(c, lhs, rhs, rep),
    ensures
        holds(c, env) <==> ((forall|i: int| 1 <= i < 8 ==> #[trigger] env[lhs][i] == env[rhs][i])
            && env[rep][0] == env[lhs][0] - env[rhs][0]),
{
    if holds(c, env) {
        assert(term_value(*equations(c)[0].term, env) == equations(c)[0].value);
        assert forall|i: int| 1 <= i < 8 implies #[trigger] env[lhs][i] == env[rhs][i] by {
            assert(term_value(*equations(c)[i].term, env) == equations(c)[i].value);
        }
    }
    if (forall|i: int| 1 <= i < 8 ==> #[trigger] env[lhs][i] == env[rhs][i]) && env[rep][0] == env[lhs][0]
        - env[rhs][0] {
        assert forall|i: int| 0 <= i < equations(c).len() implies #[trigger] term_value(
            *equations(c)[i].term,
            env,
        ) == equations(c)[i].value by {
            if i > 0 {
                assert(env[lhs][i] == env[rhs][i]);
            }
        }
    }
}

/// With a repair object distinct from both sides, a repairable constraint is
/// satisfiable whenever the SI exponents of the two sides agree: setting the
/// repair's scalar prefix to `lhs.sp - rhs.sp` satisfies it.
pub proof fn lemma_repairable_feasible(
    c: Constraint,
    lhs: Seq<char>,
    rhs: Seq<char>,
    rep: Seq<char>,
    env: Map<Seq<char>, Seq<int>>,
)
    requires
        repairable(c, lhs, rhs, rep),
        rep != lhs,
        rep != rhs,
        forall|i: int| 1 <= i < 8 ==> #[trigger] env[lhs][i] == env[rhs][i],
    ensures
        holds(c, env.insert(rep, seq![env[lhs][0] - env[rhs][0], 0, 0, 0, 0, 0, 0, 0])),
{
    let e2 = env.insert(rep, seq![env[lhs][0] - env[rhs][0], 0, 0, 0, 0, 0, 0, 0]);
    assert(e2[lhs] == env[lhs] && e2[rhs] == env[rhs]);
    lemma_repairable_exact(c, lhs, rhs, rep, e2);
}

} // verus!
