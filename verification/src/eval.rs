//! Evaluation of de Bruijn terms to values: by direct recursion, and by an
//! abstract machine that keeps its own stack.
pub mod equivalence;
pub mod heap;
pub mod machine;
pub mod scoping;
pub mod semantics;
pub mod stack;
pub mod value;

use crate::de_bruijn::{Expr, ExprRef};
use crate::eval::heap::Heap;
use crate::eval::machine::{snapshot, Env, Machine, Step, ValueRef};
use crate::eval::semantics::{add_u64, eval_spec, initial, run_spec, EvalError};
use crate::eval::value::{env_view, lemma_env_view, lemma_env_view_push, Value, ValueView};
use vstd::prelude::*;

verus! {

/// What the result of an evaluation denotes.
pub open spec fn result_view<'expr, 'value>(
    r: Result<ValueRef<'expr, 'value>, EvalError>,
) -> Result<ValueView<'expr>, EvalError> {
    match r {
        Ok(value) => Ok(value@),
        Err(err) => Err(err),
    }
}

/// Evaluates `expr` under `env` by recursion on the term, at most `fuel`
/// evaluations deep. New values are allocated on `heap`.
pub fn eval<'expr, 'heap, 'value>(
    heap: &'heap Heap<'expr, 'value>,
    env: &Env<'expr, 'value>,
    expr: ExprRef<'expr>,
    fuel: u64,
) -> (r: Result<ValueRef<'expr, 'value>, EvalError>) where 'heap: 'value
    ensures
        result_view(r) == eval_spec(env_view(env@), *expr, fuel as nat),
    decreases fuel,
{
    if fuel == 0 {
        return Err(EvalError::OutOfFuel);
    }
    match expr {
        Expr::Var(n) => {
            proof {
                lemma_env_view(env@);
            }
            if *n < env.len() {
                Ok(env[env.len() - *n - 1])
            } else {
                Err(EvalError::UnboundVariable)
            }
        },
        Expr::App(f, x) => {
            let f_value = match eval(heap, env, f, fuel - 1) {
                Ok(value) => value,
                Err(err) => {
                    return Err(err);
                },
            };
            match f_value {
                Value::Closure { env: captured, body } => {
                    let x_value = match eval(heap, env, x, fuel - 1) {
                        Ok(value) => value,
                        Err(err) => {
                            return Err(err);
                        },
                    };
                    let mut inner = snapshot(captured);
                    inner.push(x_value);
                    proof {
                        lemma_env_view_push(captured@, x_value);
                    }
                    eval(heap, &inner, body, fuel - 1)
                },
                Value::U64(_) => Err(EvalError::NotAClosure),
            }
        },
        Expr::Lam(body) => {
            let captured = snapshot(env);
            Ok(heap.allocate(Value::Closure { env: captured, body }))
        },
        Expr::U64(n) => Ok(heap.allocate(Value::U64(*n))),
        Expr::AddU64(l, r) => {
            let l_value = match eval(heap, env, l, fuel - 1) {
                Ok(value) => value,
                Err(err) => {
                    return Err(err);
                },
            };
            match l_value {
                Value::U64(l_n) => {
                    let r_value = match eval(heap, env, r, fuel - 1) {
                        Ok(value) => value,
                        Err(err) => {
                            return Err(err);
                        },
                    };
                    match r_value {
                        Value::U64(r_n) => {
                            let sum = l_n.wrapping_add(*r_n);
                            assert(sum == add_u64(*l_n, *r_n));
                            Ok(heap.allocate(Value::U64(sum)))
                        },
                        Value::Closure { .. } => Err(EvalError::NotAnInteger),
                    }
                },
                Value::Closure { .. } => Err(EvalError::NotAnInteger),
            }
        },
    }
}

/// Evaluates `expr` under the empty environment on the abstract machine,
/// which may make `fuel` transitions before the one that ends the run.
pub fn eval_loop<'expr, 'heap, 'value>(
    heap: &'heap Heap<'expr, 'value>,
    expr: ExprRef<'expr>,
    fuel: u64,
) -> (r: Result<ValueRef<'expr, 'value>, EvalError>) where 'heap: 'value
    ensures
        result_view(r) == run_spec(initial(*expr), fuel as nat),
{
    let mut machine = Machine::new(expr);
    let mut left = fuel;
    loop
        invariant
            run_spec(machine@, left as nat) == run_spec(initial(*expr), fuel as nat),
        decreases left,
    {
        match machine.step(heap) {
            Step::Halt(value) => {
                return Ok(value);
            },
            Step::Stuck(err) => {
                return Err(err);
            },
            Step::Continue => {
                if left == 0 {
                    return Err(EvalError::OutOfFuel);
                }
                left = left - 1;
            },
        }
    }
}

} // verus!
