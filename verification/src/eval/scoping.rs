//! Terms without free variables never reach past their environment.
use crate::de_bruijn::Expr;
use crate::eval::equivalence::{lemma_run_implies_eval, out_of_fuel};
use crate::eval::semantics::{eval_spec, initial, run_spec, EvalError};
use crate::eval::value::ValueView;
use vstd::prelude::*;

verus! {

/// The body of every closure in `v` is well scoped under the closure's
/// environment and the one binding that an application adds to it.
pub open spec fn value_closed(v: ValueView) -> bool
    decreases v,
{
    match v {
        ValueView::U64(_) => true,
        ValueView::Closure { env, body } => body.well_scoped(env.len() + 1) && forall|i: int|
            0 <= i < env.len() ==> value_closed(#[trigger] env[i]),
    }
}

/// Every value of `env` is closed.
pub open spec fn env_closed(env: Seq<ValueView>) -> bool {
    forall|i: int| 0 <= i < env.len() ==> value_closed(#[trigger] env[i])
}

/// A term that is well scoped under a closed environment evaluates to a
/// closed value, if to any, and does not fail on an unbound variable.
pub proof fn lemma_eval_closed<'expr>(env: Seq<ValueView<'expr>>, e: Expr<'expr>, fuel: nat)
    requires
        env_closed(env),
        e.well_scoped(env.len()),
    ensures
        match eval_spec(env, e, fuel) {
            Ok(value) => value_closed(value),
            Err(err) => err != EvalError::UnboundVariable,
        },
    decreases fuel,
{
    if fuel > 0 {
        let k = (fuel - 1) as nat;
        match e {
            Expr::Var(_) => {},
            Expr::U64(_) => {},
            Expr::Lam(body) => {},
            Expr::AddU64(l, r) => {
                lemma_eval_closed(env, *l, k);
                lemma_eval_closed(env, *r, k);
            },
            Expr::App(f, x) => {
                lemma_eval_closed(env, *f, k);
                lemma_eval_closed(env, *x, k);
                match eval_spec(env, *f, k) {
                    Ok(ValueView::Closure { env: captured, body }) => {
                        match eval_spec(env, *x, k) {
                            Ok(arg) => {
                                let inner = captured.push(arg);
                                assert forall|i: int| 0 <= i < inner.len() implies value_closed(
                                    #[trigger] inner[i],
                                ) by {
                                    if i < captured.len() {
                                        assert(inner[i] == captured[i]);
                                    }
                                }
                                lemma_eval_closed(inner, body, k);
                            },
                            Err(_) => {},
                        }
                    },
                    _ => {},
                }
            },
        }
    }
}

/// Neither evaluator fails on an unbound variable when given a term without
/// free variables.
pub proof fn lemma_closed_terms_are_bound<'expr>(e: Expr<'expr>, depth: nat, transitions: nat)
    requires
        e.closed(),
    ensures
        eval_spec(Seq::empty(), e, depth) != Err::<ValueView<'expr>, EvalError>(
            EvalError::UnboundVariable,
        ),
        run_spec(initial(e), transitions) != Err::<ValueView<'expr>, EvalError>(
            EvalError::UnboundVariable,
        ),
{
    lemma_eval_closed(Seq::empty(), e, depth);
    if !out_of_fuel(run_spec(initial(e), transitions)) {
        let fuel = lemma_run_implies_eval(e, transitions);
        lemma_eval_closed(Seq::empty(), e, fuel);
    }
}

} // verus!
