//! What evaluation means: a big-step function with a depth bound, and the
//! transition function of the abstract machine.
use crate::de_bruijn::Expr;
use crate::eval::value::ValueView;
use vstd::prelude::*;

verus! {

/// Why an evaluation produced no value.
#[derive(Clone, Copy, Debug, PartialEq, Eq, Structural)]
pub enum EvalError {
    /// The function position of an application held an integer.
    NotAClosure,
    /// An operand of an addition held a closure.
    NotAnInteger,
    /// A variable's index reached past the environment.
    UnboundVariable,
    /// The bound on depth or on steps was reached first.
    OutOfFuel,
}

/// Addition of the language: modulo 2^64.
pub open spec fn add_u64(a: u64, b: u64) -> u64 {
    ((a + b) % 0x1_0000_0000_0000_0000) as u64
}

/// Addition wraps modulo 2^64, and is commutative and associative.
pub proof fn lemma_add_u64(a: u64, b: u64, c: u64)
    ensures
        add_u64(a, b) == (a + b) % 0x1_0000_0000_0000_0000,
        a + b < 0x1_0000_0000_0000_0000 ==> add_u64(a, b) == a + b,
        add_u64(a, b) == add_u64(b, a),
        add_u64(add_u64(a, b), c) == add_u64(a, add_u64(b, c)),
{
    let m = 0x1_0000_0000_0000_0000int;
    vstd::arithmetic::div_mod::lemma_small_mod(a as nat, m as nat);
    vstd::arithmetic::div_mod::lemma_small_mod(c as nat, m as nat);
    vstd::arithmetic::div_mod::lemma_add_mod_noop(a + b, c as int, m);
    vstd::arithmetic::div_mod::lemma_add_mod_noop(a as int, b + c, m);
    if a + b < m {
        vstd::arithmetic::div_mod::lemma_small_mod((a + b) as nat, m as nat);
    }
}

/// The binding that `Var(n)` names: the `n`-th from the right end.
pub open spec fn lookup<'expr>(env: Seq<ValueView<'expr>>, n: usize) -> Result<
    ValueView<'expr>,
    EvalError,
> {
    if n < env.len() {
        Ok(env[env.len() - n - 1])
    } else {
        Err(EvalError::UnboundVariable)
    }
}

/// The value of `e` under `env`, where the derivation is no more than `fuel`
/// evaluations deep; `OutOfFuel` where it is deeper. The function position is
/// evaluated and checked before the argument, the left operand before the
/// right.
pub open spec fn eval_spec<'expr>(env: Seq<ValueView<'expr>>, e: Expr<'expr>, fuel: nat) -> Result<
    ValueView<'expr>,
    EvalError,
>
    decreases fuel,
{
    if fuel == 0 {
        Err(EvalError::OutOfFuel)
    } else {
        match e {
            Expr::Var(n) => lookup(env, n),
            Expr::U64(k) => Ok(ValueView::U64(k)),
            Expr::Lam(body) => Ok(ValueView::Closure { env, body: *body }),
            Expr::AddU64(l, r) => match eval_spec(env, *l, (fuel - 1) as nat) {
                Err(err) => Err(err),
                Ok(ValueView::U64(a)) => match eval_spec(env, *r, (fuel - 1) as nat) {
                    Err(err) => Err(err),
                    Ok(ValueView::U64(b)) => Ok(ValueView::U64(add_u64(a, b))),
                    Ok(_) => Err(EvalError::NotAnInteger),
                },
                Ok(_) => Err(EvalError::NotAnInteger),
            },
            Expr::App(f, x) => match eval_spec(env, *f, (fuel - 1) as nat) {
                Err(err) => Err(err),
                Ok(ValueView::Closure { env: captured, body }) => match eval_spec(
                    env,
                    *x,
                    (fuel - 1) as nat,
                ) {
                    Err(err) => Err(err),
                    Ok(arg) => eval_spec(captured.push(arg), body, (fuel - 1) as nat),
                },
                Ok(_) => Err(EvalError::NotAClosure),
            },
        }
    }
}

/// An addition whose operands evaluate to integers evaluates to their sum
/// modulo 2^64, in whichever order the operands stand.
pub proof fn lemma_eval_add<'expr>(
    env: Seq<ValueView<'expr>>,
    l: Expr<'expr>,
    r: Expr<'expr>,
    fuel: nat,
    a: u64,
    b: u64,
)
    requires
        eval_spec(env, l, fuel) == Ok::<ValueView, EvalError>(ValueView::U64(a)),
        eval_spec(env, r, fuel) == Ok::<ValueView, EvalError>(ValueView::U64(b)),
    ensures
        eval_spec(env, Expr::AddU64(&l, &r), fuel + 1) == Ok::<ValueView, EvalError>(
            ValueView::U64(add_u64(a, b)),
        ),
        eval_spec(env, Expr::AddU64(&l, &r), fuel + 1) == eval_spec(
            env,
            Expr::AddU64(&r, &l),
            fuel + 1,
        ),
{
    lemma_add_u64(a, b, 0);
}

/// One frame of the machine's continuation: what to do with the value that
/// is being computed.
pub enum FrameView<'expr> {
    /// The function of an application is being evaluated; `arg` waits, to be
    /// evaluated under `env`.
    AppL { env: Seq<ValueView<'expr>>, arg: Expr<'expr> },
    /// The argument is being evaluated; then `body` runs under `env` extended
    /// by it.
    AppR { env: Seq<ValueView<'expr>>, body: Expr<'expr> },
    /// The left operand is being evaluated; `right` waits.
    AddU64L { env: Seq<ValueView<'expr>>, right: Expr<'expr> },
    /// The right operand is being evaluated; the left one was `left`.
    AddU64R { left: u64 },
}

/// A state of the machine. The innermost frame is the last of `stack`.
pub enum State<'expr> {
    Eval { expr: Expr<'expr>, env: Seq<ValueView<'expr>>, stack: Seq<FrameView<'expr>> },
    Return { value: ValueView<'expr>, stack: Seq<FrameView<'expr>> },
}

/// What a state leads to: another state, the result, or nothing.
pub enum Transition<'expr> {
    Next(State<'expr>),
    Halt(ValueView<'expr>),
    Stuck(EvalError),
}

/// The state in which the machine starts on `e`.
pub open spec fn initial<'expr>(e: Expr<'expr>) -> State<'expr> {
    State::Eval { expr: e, env: Seq::empty(), stack: Seq::empty() }
}

/// One transition of the machine.
pub open spec fn step_spec<'expr>(s: State<'expr>) -> Transition<'expr> {
    match s {
        State::Eval { expr, env, stack } => match expr {
            Expr::Var(n) => match lookup(env, n) {
                Ok(value) => Transition::Next(State::Return { value, stack }),
                Err(err) => Transition::Stuck(err),
            },
            Expr::U64(k) => Transition::Next(State::Return { value: ValueView::U64(k), stack }),
            Expr::Lam(body) => Transition::Next(
                State::Return { value: ValueView::Closure { env, body: *body }, stack },
            ),
            Expr::App(l, r) => Transition::Next(
                State::Eval { expr: *l, env, stack: stack.push(FrameView::AppL { env, arg: *r }) },
            ),
            Expr::AddU64(l, r) => Transition::Next(
                State::Eval {
                    expr: *l,
                    env,
                    stack: stack.push(FrameView::AddU64L { env, right: *r }),
                },
            ),
        },
        State::Return { value, stack } => if stack.len() == 0 {
            Transition::Halt(value)
        } else {
            let rest = stack.drop_last();
            match stack.last() {
                FrameView::AppL { env, arg } => match value {
                    ValueView::Closure { env: captured, body } => Transition::Next(
                        State::Eval {
                            expr: arg,
                            env,
                            stack: rest.push(FrameView::AppR { env: captured, body }),
                        },
                    ),
                    _ => Transition::Stuck(EvalError::NotAClosure),
                },
                FrameView::AppR { env, body } => Transition::Next(
                    State::Eval { expr: body, env: env.push(value), stack: rest },
                ),
                FrameView::AddU64L { env, right } => match value {
                    ValueView::U64(left) => Transition::Next(
                        State::Eval {
                            expr: right,
                            env,
                            stack: rest.push(FrameView::AddU64R { left }),
                        },
                    ),
                    _ => Transition::Stuck(EvalError::NotAnInteger),
                },
                FrameView::AddU64R { left } => match value {
                    ValueView::U64(right) => Transition::Next(
                        State::Return { value: ValueView::U64(add_u64(left, right)), stack: rest },
                    ),
                    _ => Transition::Stuck(EvalError::NotAnInteger),
                },
            }
        },
    }
}

/// Where the machine ends when started in `s` and allowed `fuel` transitions
/// before the one that halts it or finds it stuck.
pub open spec fn run_spec<'expr>(s: State<'expr>, fuel: nat) -> Result<ValueView<'expr>, EvalError>
    decreases fuel,
{
    match step_spec(s) {
        Transition::Halt(value) => Ok(value),
        Transition::Stuck(err) => Err(err),
        Transition::Next(next) => if fuel == 0 {
            Err(EvalError::OutOfFuel)
        } else {
            run_spec(next, (fuel - 1) as nat)
        },
    }
}

} // verus!
