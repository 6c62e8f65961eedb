//! The two evaluators give the same results.
//!
//! The direct evaluator is bounded in depth and the machine in steps, so the
//! statement is about runs that end before their bound: whenever both end,
//! they end alike, and where one ends the other ends too, given a bound that
//! is large enough.
use crate::de_bruijn::Expr;
use crate::eval::semantics::{
    eval_spec, initial, lookup, run_spec, step_spec, EvalError, FrameView, State, Transition,
};
use crate::eval::value::ValueView;
use vstd::prelude::*;

verus! {

/// The run stopped at its bound, not at a result.
pub open spec fn out_of_fuel<'expr>(r: Result<ValueView<'expr>, EvalError>) -> bool {
    r matches Err(EvalError::OutOfFuel)
}

/// The state after exactly `n` transitions from `s`; `None` where the
/// machine halts or is stuck before that.
pub open spec fn steps<'expr>(s: State<'expr>, n: nat) -> Option<State<'expr>>
    decreases n,
{
    if n == 0 {
        Some(s)
    } else {
        match step_spec(s) {
            Transition::Next(next) => steps(next, (n - 1) as nat),
            _ => None,
        }
    }
}

/// A run can be cut in two: `a` transitions to `mid`, and the rest from
/// there.
pub proof fn lemma_chain<'expr>(s: State<'expr>, a: nat, mid: State<'expr>, b: nat)
    requires
        steps(s, a) == Some(mid),
    ensures
        steps(s, a + b) == steps(mid, b),
        run_spec(s, a + b) == run_spec(mid, b),
    decreases a,
{
    if a > 0 {
        match step_spec(s) {
            Transition::Next(next) => {
                lemma_chain(next, (a - 1) as nat, mid, b);
                assert(steps(s, a + b) == steps(next, (a + b - 1) as nat));
                assert(run_spec(s, a + b) == run_spec(next, (a + b - 1) as nat));
            },
            _ => {},
        }
    }
}

/// A machine that is still running after `a` transitions has not ended
/// within fewer.
pub proof fn lemma_still_running<'expr>(s: State<'expr>, a: nat, n: nat)
    requires
        steps(s, a) is Some,
        n < a,
    ensures
        out_of_fuel(run_spec(s, n)),
    decreases a,
{
    match step_spec(s) {
        Transition::Next(next) => {
            if n > 0 {
                lemma_still_running(next, (a - 1) as nat, (n - 1) as nat);
            }
        },
        _ => {},
    }
}

/// A run of the machine that has ended ends alike under any larger bound.
pub proof fn lemma_run_monotone<'expr>(s: State<'expr>, f: nat, g: nat)
    requires
        !out_of_fuel(run_spec(s, f)),
        f <= g,
    ensures
        run_spec(s, g) == run_spec(s, f),
    decreases f,
{
    match step_spec(s) {
        Transition::Next(next) => {
            if f > 0 {
                lemma_run_monotone(next, (f - 1) as nat, (g - 1) as nat);
            }
        },
        _ => {},
    }
}

/// An evaluation that has ended ends alike under any larger bound.
pub proof fn lemma_eval_monotone<'expr>(env: Seq<ValueView<'expr>>, e: Expr<'expr>, f: nat, g: nat)
    requires
        !out_of_fuel(eval_spec(env, e, f)),
        f <= g,
    ensures
        eval_spec(env, e, g) == eval_spec(env, e, f),
    decreases f,
{
    if f > 0 {
        let f1 = (f - 1) as nat;
        let g1 = (g - 1) as nat;
        match e {
            Expr::AddU64(l, r) => {
                lemma_eval_monotone(env, *l, f1, g1);
                if eval_spec(env, *l, f1) matches Ok(ValueView::U64(_)) {
                    lemma_eval_monotone(env, *r, f1, g1);
                }
            },
            Expr::App(fun, arg) => {
                lemma_eval_monotone(env, *fun, f1, g1);
                match eval_spec(env, *fun, f1) {
                    Ok(ValueView::Closure { env: captured, body }) => {
                        lemma_eval_monotone(env, *arg, f1, g1);
                        match eval_spec(env, *arg, f1) {
                            Ok(value) => {
                                lemma_eval_monotone(captured.push(value), body, f1, g1);
                            },
                            Err(_) => {},
                        }
                    },
                    _ => {},
                }
            },
            _ => {},
        }
    }
}

/// Pushing a frame and taking it off again gives the stack back.
proof fn lemma_push_pop<'expr>(stack: Seq<FrameView<'expr>>, frame: FrameView<'expr>)
    ensures
        stack.push(frame).len() > 0,
        stack.push(frame).last() == frame,
        stack.push(frame).drop_last() == stack,
{
    assert(stack.push(frame).drop_last() =~= stack);
}

/// The machine follows the direct evaluator, whatever lies on its stack.
/// Where the evaluation of `e` under `env` gives a value, the machine gets
/// from `e` under `env` to that value in `n` transitions, with the stack as
/// it was. Where the evaluation fails, other than at its bound, the machine
/// is stuck on the same error after `n` transitions.
pub proof fn lemma_simulate<'expr>(
    env: Seq<ValueView<'expr>>,
    e: Expr<'expr>,
    fuel: nat,
    stack: Seq<FrameView<'expr>>,
) -> (n: nat)
    ensures
        match eval_spec(env, e, fuel) {
            Ok(value) => steps(State::Eval { expr: e, env, stack }, n) == Some(
                State::Return { value, stack },
            ),
            Err(err) => err != EvalError::OutOfFuel ==> run_spec(
                State::Eval { expr: e, env, stack },
                n,
            ) == Err::<ValueView<'expr>, EvalError>(err),
        },
    decreases fuel,
{
    let s0 = State::Eval { expr: e, env, stack };
    let k = (fuel - 1) as nat;
    if fuel == 0 {
        0
    } else {
        match e {
        Expr::Var(i) => {
            match lookup(env, i) {
                Ok(value) => {
                    assert(steps(s0, 1) == steps(State::Return { value, stack }, 0));
                    1
                },
                Err(_) => 0,
            }
        },
        Expr::U64(v) => {
            assert(steps(s0, 1) == steps(State::Return { value: ValueView::U64(v), stack }, 0));
            1
        },
        Expr::Lam(body) => {
            assert(steps(s0, 1) == steps(
                State::Return { value: ValueView::Closure { env, body: *body }, stack },
                0,
            ));
            1
        },
        Expr::App(fun, arg) => {
            let stack1 = stack.push(FrameView::AppL { env, arg: *arg });
            let s1 = State::Eval { expr: *fun, env, stack: stack1 };
            assert(steps(s0, 1) == steps(s1, 0));
            lemma_push_pop(stack, FrameView::AppL { env, arg: *arg });
            let n1 = lemma_simulate(env, *fun, k, stack1);
            lemma_chain(s0, 1, s1, n1);
            match eval_spec(env, *fun, k) {
                Err(_) => 1 + n1,
                Ok(fun_value) => {
                    let m1 = State::Return { value: fun_value, stack: stack1 };
                    match fun_value {
                        ValueView::Closure { env: captured, body } => {
                            let stack2 = stack.push(FrameView::AppR { env: captured, body });
                            let s2 = State::Eval { expr: *arg, env, stack: stack2 };
                            assert(step_spec(m1) == Transition::Next(s2));
                            assert(steps(m1, 1) == steps(s2, 0));
                            lemma_chain(s0, 1 + n1, m1, 1);
                            lemma_push_pop(stack, FrameView::AppR { env: captured, body });
                            let n2 = lemma_simulate(env, *arg, k, stack2);
                            lemma_chain(s0, 1 + n1 + 1, s2, n2);
                            match eval_spec(env, *arg, k) {
                                Err(_) => 1 + n1 + 1 + n2,
                                Ok(arg_value) => {
                                    let m2 = State::Return { value: arg_value, stack: stack2 };
                                    let s3 = State::Eval {
                                        expr: body,
                                        env: captured.push(arg_value),
                                        stack,
                                    };
                                    assert(step_spec(m2) == Transition::Next(s3));
                                    assert(steps(m2, 1) == steps(s3, 0));
                                    lemma_chain(s0, 1 + n1 + 1 + n2, m2, 1);
                                    let inner = captured.push(arg_value);
                                    let n3 = lemma_simulate(inner, body, k, stack);
                                    lemma_chain(s0, 1 + n1 + 1 + n2 + 1, s3, n3);
                                    1 + n1 + 1 + n2 + 1 + n3
                                },
                            }
                        },
                        ValueView::U64(_) => {
                            assert(step_spec(m1) == Transition::<'expr>::Stuck(
                                EvalError::NotAClosure,
                            ));
                            lemma_chain(s0, 1 + n1, m1, 0);
                            1 + n1
                        },
                    }
                },
            }
        },
        Expr::AddU64(l, r) => {
            let stack1 = stack.push(FrameView::AddU64L { env, right: *r });
            let s1 = State::Eval { expr: *l, env, stack: stack1 };
            assert(steps(s0, 1) == steps(s1, 0));
            lemma_push_pop(stack, FrameView::AddU64L { env, right: *r });
            let n1 = lemma_simulate(env, *l, k, stack1);
            lemma_chain(s0, 1, s1, n1);
            match eval_spec(env, *l, k) {
                Err(_) => 1 + n1,
                Ok(left_value) => {
                    let m1 = State::Return { value: left_value, stack: stack1 };
                    match left_value {
                        ValueView::U64(left) => {
                            let stack2 = stack.push(FrameView::AddU64R { left });
                            let s2 = State::Eval { expr: *r, env, stack: stack2 };
                            assert(step_spec(m1) == Transition::Next(s2));
                            assert(steps(m1, 1) == steps(s2, 0));
                            lemma_chain(s0, 1 + n1, m1, 1);
                            lemma_push_pop(stack, FrameView::AddU64R { left });
                            let n2 = lemma_simulate(env, *r, k, stack2);
                            lemma_chain(s0, 1 + n1 + 1, s2, n2);
                            match eval_spec(env, *r, k) {
                                Err(_) => 1 + n1 + 1 + n2,
                                Ok(right_value) => {
                                    let m2 = State::Return { value: right_value, stack: stack2 };
                                    match right_value {
                                        ValueView::U64(right) => {
                                            let done = State::Return {
                                                value: ValueView::U64(
                                                    crate::eval::semantics::add_u64(left, right),
                                                ),
                                                stack,
                                            };
                                            assert(step_spec(m2) == Transition::Next(done));
                                            assert(steps(m2, 1) == steps(done, 0));
                                            lemma_chain(s0, 1 + n1 + 1 + n2, m2, 1);
                                            1 + n1 + 1 + n2 + 1
                                        },
                                        ValueView::Closure { .. } => {
                                            assert(step_spec(m2) == Transition::<'expr>::Stuck(
                                                EvalError::NotAnInteger,
                                            ));
                                            lemma_chain(s0, 1 + n1 + 1 + n2, m2, 0);
                                            1 + n1 + 1 + n2
                                        },
                                    }
                                },
                            }
                        },
                        ValueView::Closure { .. } => {
                            assert(step_spec(m1) == Transition::<'expr>::Stuck(
                                EvalError::NotAnInteger,
                            ));
                            lemma_chain(s0, 1 + n1, m1, 0);
                            1 + n1
                        },
                    }
                },
            }
        },
    }
    }
}

/// Where the direct evaluator reaches its bound of `fuel` on `e`, the
/// machine does not end within fewer transitions than `fuel`: a derivation
/// that is `fuel` deep takes at least as many transitions.
pub proof fn lemma_starved<'expr>(
    env: Seq<ValueView<'expr>>,
    e: Expr<'expr>,
    fuel: nat,
    stack: Seq<FrameView<'expr>>,
    n: nat,
)
    requires
        out_of_fuel(eval_spec(env, e, fuel)),
        n < fuel,
    ensures
        out_of_fuel(run_spec(State::Eval { expr: e, env, stack }, n)),
    decreases fuel,
{
    let s0 = State::Eval { expr: e, env, stack };
    let k = (fuel - 1) as nat;
    match e {
        Expr::App(fun, arg) => {
            let stack1 = stack.push(FrameView::AppL { env, arg: *arg });
            let s1 = State::Eval { expr: *fun, env, stack: stack1 };
            assert(steps(s0, 1) == steps(s1, 0));
            lemma_push_pop(stack, FrameView::AppL { env, arg: *arg });
            if n > 0 {
                match eval_spec(env, *fun, k) {
                    Err(_) => {
                        lemma_starved(env, *fun, k, stack1, (n - 1) as nat);
                    },
                    Ok(ValueView::Closure { env: captured, body }) => {
                        let n1 = lemma_simulate(env, *fun, k, stack1);
                        lemma_chain(s0, 1, s1, n1);
                        let m1 = State::Return {
                            value: ValueView::Closure { env: captured, body },
                            stack: stack1,
                        };
                        let stack2 = stack.push(FrameView::AppR { env: captured, body });
                        let s2 = State::Eval { expr: *arg, env, stack: stack2 };
                        assert(step_spec(m1) == Transition::Next(s2));
                        assert(steps(m1, 1) == steps(s2, 0));
                        lemma_chain(s0, 1 + n1, m1, 1);
                        lemma_push_pop(stack, FrameView::AppR { env: captured, body });
                        if n < 1 + n1 + 1 {
                            lemma_still_running(s0, 1 + n1 + 1, n);
                        } else {
                            let left = (n - (1 + n1 + 1)) as nat;
                            lemma_chain(s0, 1 + n1 + 1, s2, left);
                            match eval_spec(env, *arg, k) {
                                Err(_) => {
                                    lemma_starved(env, *arg, k, stack2, left);
                                },
                                Ok(arg_value) => {
                                    let n2 = lemma_simulate(env, *arg, k, stack2);
                                    lemma_chain(s0, 1 + n1 + 1, s2, n2);
                                    let m2 = State::Return { value: arg_value, stack: stack2 };
                                    let s3 = State::Eval {
                                        expr: body,
                                        env: captured.push(arg_value),
                                        stack,
                                    };
                                    assert(step_spec(m2) == Transition::Next(s3));
                                    assert(steps(m2, 1) == steps(s3, 0));
                                    lemma_chain(s0, 1 + n1 + 1 + n2, m2, 1);
                                    if n < 1 + n1 + 1 + n2 + 1 {
                                        lemma_still_running(s0, 1 + n1 + 1 + n2 + 1, n);
                                    } else {
                                        let rest = (n - (1 + n1 + 1 + n2 + 1)) as nat;
                                        lemma_chain(s0, 1 + n1 + 1 + n2 + 1, s3, rest);
                                        let inner = captured.push(arg_value);
                                        lemma_starved(inner, body, k, stack, rest);
                                    }
                                },
                            }
                        }
                    },
                    Ok(ValueView::U64(_)) => {},
                }
            }
        },
        Expr::AddU64(l, r) => {
            let stack1 = stack.push(FrameView::AddU64L { env, right: *r });
            let s1 = State::Eval { expr: *l, env, stack: stack1 };
            assert(steps(s0, 1) == steps(s1, 0));
            lemma_push_pop(stack, FrameView::AddU64L { env, right: *r });
            if n > 0 {
                match eval_spec(env, *l, k) {
                    Err(_) => {
                        lemma_starved(env, *l, k, stack1, (n - 1) as nat);
                    },
                    Ok(ValueView::U64(left)) => {
                        let n1 = lemma_simulate(env, *l, k, stack1);
                        lemma_chain(s0, 1, s1, n1);
                        let m1 = State::Return { value: ValueView::U64(left), stack: stack1 };
                        let stack2 = stack.push(FrameView::AddU64R { left });
                        let s2 = State::Eval { expr: *r, env, stack: stack2 };
                        assert(step_spec(m1) == Transition::Next(s2));
                        assert(steps(m1, 1) == steps(s2, 0));
                        lemma_chain(s0, 1 + n1, m1, 1);
                        if n < 1 + n1 + 1 {
                            lemma_still_running(s0, 1 + n1 + 1, n);
                        } else {
                            let left_over = (n - (1 + n1 + 1)) as nat;
                            lemma_chain(s0, 1 + n1 + 1, s2, left_over);
                            lemma_starved(env, *r, k, stack2, left_over);
                        }
                    },
                    Ok(ValueView::Closure { .. }) => {},
                }
            }
        },
        _ => {},
    }
}

/// What the machine finds for a term, the direct evaluator finds too, within
/// the depth `fuel`.
pub proof fn lemma_run_implies_eval<'expr>(e: Expr<'expr>, n: nat) -> (fuel: nat)
    requires
        !out_of_fuel(run_spec(initial(e), n)),
    ensures
        eval_spec(Seq::empty(), e, fuel) == run_spec(initial(e), n),
{
    let fuel = n + 1;
    if out_of_fuel(eval_spec(Seq::empty(), e, fuel)) {
        lemma_starved(Seq::empty(), e, fuel, Seq::empty(), n);
    } else {
        lemma_evaluators_agree(e, fuel, n);
    }
    fuel
}

/// What the direct evaluator finds for a term, the machine finds too, within
/// `n` transitions.
pub proof fn lemma_eval_implies_run<'expr>(e: Expr<'expr>, fuel: nat) -> (n: nat)
    requires
        !out_of_fuel(eval_spec(Seq::empty(), e, fuel)),
    ensures
        run_spec(initial(e), n) == eval_spec(Seq::empty(), e, fuel),
{
    let n = lemma_simulate(Seq::empty(), e, fuel, Seq::empty());
    match eval_spec(Seq::empty(), e, fuel) {
        Ok(value) => {
            lemma_chain(
                initial(e),
                n,
                State::Return { value, stack: Seq::<FrameView<'expr>>::empty() },
                0,
            );
        },
        Err(_) => {},
    }
    n
}

/// Evaluator equivalence. Whenever the direct evaluator and the machine
/// both end on a term before their bounds, they end alike: on the same value
/// or on the same error.
pub proof fn lemma_evaluators_agree<'expr>(e: Expr<'expr>, depth: nat, transitions: nat)
    requires
        !out_of_fuel(eval_spec(Seq::empty(), e, depth)),
        !out_of_fuel(run_spec(initial(e), transitions)),
    ensures
        eval_spec(Seq::empty(), e, depth) == run_spec(initial(e), transitions),
{
    let n = lemma_eval_implies_run(e, depth);
    if n <= transitions {
        lemma_run_monotone(initial(e), n, transitions);
    } else {
        lemma_run_monotone(initial(e), transitions, n);
    }
}

} // verus!
