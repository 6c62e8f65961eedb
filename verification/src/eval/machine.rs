//! The abstract machine: code, environment and a stack of continuation frames.
use crate::de_bruijn::{Expr, ExprRef};
use crate::eval::heap::Heap;
use crate::eval::semantics::{add_u64, initial, step_spec, EvalError, FrameView, State, Transition};
use crate::eval::value::{env_view, lemma_env_view, lemma_env_view_push, Value};
use vstd::prelude::*;

verus! {

/// An environment: the bindings in the order of their binders, outermost
/// first. `Var(n)` reads the `n`-th from the right end.
pub type Env<'expr, 'value> = Vec<&'value Value<'expr, 'value>>;

/// A value that lives on a heap.
pub type ValueRef<'expr, 'value> = &'value Value<'expr, 'value>;

/// A copy of `env`: the references are duplicated, the values are shared.
pub fn snapshot<'expr, 'value>(env: &Env<'expr, 'value>) -> (copy: Env<'expr, 'value>)
    ensures
        copy@ == env@,
{
    let mut copy: Env<'expr, 'value> = Vec::with_capacity(env.len());
    let mut i: usize = 0;
    while i < env.len()
        invariant
            i <= env.len(),
            copy@ == env@.take(i as int),
        decreases env.len() - i,
    {
        copy.push(env[i]);
        assert(copy@ =~= env@.take(i + 1));
        i += 1;
    }
    assert(env@.take(env.len() as int) =~= env@);
    copy
}

/// A frame of the continuation. The value under evaluation fills the
/// position that the variant's name gives.
#[derive(Debug)]
pub enum Cont<'expr, 'value> {
    AppL(Env<'expr, 'value>, ExprRef<'expr>),
    AppR(Env<'expr, 'value>, ExprRef<'expr>),
    AddU64L(Env<'expr, 'value>, ExprRef<'expr>),
    AddU64R(u64),
}

impl<'expr, 'value> View for Cont<'expr, 'value> {
    type V = FrameView<'expr>;

    open spec fn view(&self) -> FrameView<'expr> {
        match self {
            Cont::AppL(env, arg) => FrameView::AppL { env: env_view(env@), arg: **arg },
            Cont::AppR(env, body) => FrameView::AppR { env: env_view(env@), body: **body },
            Cont::AddU64L(env, right) => FrameView::AddU64L { env: env_view(env@), right: **right },
            Cont::AddU64R(left) => FrameView::AddU64R { left: *left },
        }
    }
}

/// The frames that a stack of continuations denotes, outermost first.
pub open spec fn stack_view<'expr, 'value>(cont: Seq<Cont<'expr, 'value>>) -> Seq<
    FrameView<'expr>,
> {
    Seq::new(cont.len(), |i: int| cont[i]@)
}

/// What the machine works on: a term still to be evaluated, or a value to hand
/// to the innermost frame.
#[derive(Debug)]
pub enum Code<'expr, 'value> {
    Input(ExprRef<'expr>),
    Output(ValueRef<'expr, 'value>),
}

/// What one call of `Machine::step` found.
#[derive(Debug)]
pub enum Step<'expr, 'value> {
    /// The machine moved to its next state.
    Continue,
    /// The machine held a value and no frame: the value is the result.
    Halt(ValueRef<'expr, 'value>),
    /// No transition applies.
    Stuck(EvalError),
}

/// The state of the abstract machine. The innermost frame is the last of
/// `cont`.
pub struct Machine<'expr, 'value> {
    pub code: Code<'expr, 'value>,
    pub env: Env<'expr, 'value>,
    pub cont: Vec<Cont<'expr, 'value>>,
}

impl<'expr, 'value> View for Machine<'expr, 'value> {
    type V = State<'expr>;

    /// The environment counts only while a term is under evaluation.
    open spec fn view(&self) -> State<'expr> {
        match self.code {
            Code::Input(expr) => State::Eval {
                expr: *expr,
                env: env_view(self.env@),
                stack: stack_view(self.cont@),
            },
            Code::Output(value) => State::Return { value: value@, stack: stack_view(self.cont@) },
        }
    }
}

impl<'expr, 'value> Machine<'expr, 'value> {
    /// The machine about to evaluate `expr` under the empty environment.
    pub fn new(expr: ExprRef<'expr>) -> (m: Self)
        ensures
            m@ == initial(*expr),
    {
        let m = Machine { code: Code::Input(expr), env: Vec::new(), cont: Vec::new() };
        assert(stack_view(m.cont@) =~= Seq::empty());
        m
    }

    /// Makes one transition. Values that the transition creates are
    /// allocated on `heap`. Where the machine halts or is stuck its state is
    /// left as it was.
    pub fn step<'heap>(&mut self, heap: &'heap Heap<'expr, 'value>) -> (r: Step<'expr, 'value>)
        where 'heap: 'value
        ensures
            match step_spec(old(self)@) {
                Transition::Next(next) => r is Continue && final(self)@ == next,
                Transition::Halt(value) => r matches Step::Halt(v) && v@ == value && final(self)@
                    == old(self)@,
                Transition::Stuck(err) => r == Step::<'expr, 'value>::Stuck(err) && final(self)@
                    == old(self)@,
            },
    {
        match self.code {
            Code::Input(expr) => match expr {
                Expr::U64(n) => {
                    self.code = Code::Output(heap.allocate(Value::U64(*n)));
                    Step::Continue
                },
                Expr::Var(n) => {
                    proof {
                        lemma_env_view(self.env@);
                    }
                    if *n < self.env.len() {
                        self.code = Code::Output(self.env[self.env.len() - *n - 1]);
                        Step::Continue
                    } else {
                        Step::Stuck(EvalError::UnboundVariable)
                    }
                },
                Expr::App(l, r) => {
                    let saved = snapshot(&self.env);
                    self.code = Code::Input(l);
                    self.cont.push(Cont::AppL(saved, r));
                    assert(stack_view(self.cont@) =~= stack_view(old(self).cont@).push(
                        FrameView::AppL { env: env_view(old(self).env@), arg: **r },
                    ));
                    Step::Continue
                },
                Expr::Lam(body) => {
                    let captured = snapshot(&self.env);
                    self.code = Code::Output(heap.allocate(Value::Closure { env: captured, body }));
                    Step::Continue
                },
                Expr::AddU64(l, r) => {
                    let saved = snapshot(&self.env);
                    self.code = Code::Input(l);
                    self.cont.push(Cont::AddU64L(saved, r));
                    assert(stack_view(self.cont@) =~= stack_view(old(self).cont@).push(
                        FrameView::AddU64L { env: env_view(old(self).env@), right: **r },
                    ));
                    Step::Continue
                },
            },
            Code::Output(value) => {
                if self.cont.len() == 0 {
                    return Step::Halt(value);
                }
                let ghost frames = stack_view(old(self).cont@);
                let ghost top = old(self).cont@.last();
                match value {
                    Value::U64(n) => {
                        let frame = self.cont.pop().unwrap();
                        assert(stack_view(self.cont@) =~= frames.drop_last());
                        match frame {
                            Cont::AppL(saved, arg) => {
                                self.cont.push(Cont::AppL(saved, arg));
                                assert(self.cont@ =~= old(self).cont@);
                                Step::Stuck(EvalError::NotAClosure)
                            },
                            Cont::AppR(mut next_env, body) => {
                                let ghost before = next_env@;
                                next_env.push(value);
                                proof {
                                    lemma_env_view_push(before, value);
                                }
                                self.env = next_env;
                                self.code = Code::Input(body);
                                Step::Continue
                            },
                            Cont::AddU64L(saved, right) => {
                                self.env = saved;
                                self.code = Code::Input(right);
                                self.cont.push(Cont::AddU64R(*n));
                                assert(stack_view(self.cont@) =~= frames.drop_last().push(
                                    FrameView::AddU64R { left: *n },
                                ));
                                Step::Continue
                            },
                            Cont::AddU64R(left) => {
                                let sum = left.wrapping_add(*n);
                                assert(sum == add_u64(left, *n));
                                self.code = Code::Output(heap.allocate(Value::U64(sum)));
                                Step::Continue
                            },
                        }
                    },
                    Value::Closure { env: captured, body: closure_body } => {
                        let frame = self.cont.pop().unwrap();
                        assert(stack_view(self.cont@) =~= frames.drop_last());
                        match frame {
                            Cont::AppL(saved, arg) => {
                                let copy = snapshot(captured);
                                self.env = saved;
                                self.code = Code::Input(arg);
                                self.cont.push(Cont::AppR(copy, closure_body));
                                assert(stack_view(self.cont@) =~= frames.drop_last().push(
                                    FrameView::AppR {
                                        env: env_view(captured@),
                                        body: **closure_body,
                                    },
                                ));
                                Step::Continue
                            },
                            Cont::AppR(mut next_env, body) => {
                                let ghost before = next_env@;
                                next_env.push(value);
                                proof {
                                    lemma_env_view_push(before, value);
                                }
                                self.env = next_env;
                                self.code = Code::Input(body);
                                Step::Continue
                            },
                            Cont::AddU64L(saved, right) => {
                                self.cont.push(Cont::AddU64L(saved, right));
                                assert(self.cont@ =~= old(self).cont@);
                                Step::Stuck(EvalError::NotAnInteger)
                            },
                            Cont::AddU64R(left) => {
                                self.cont.push(Cont::AddU64R(left));
                                assert(self.cont@ =~= old(self).cont@);
                                Step::Stuck(EvalError::NotAnInteger)
                            },
                        }
                    },
                }
            },
        }
    }
}

} // verus!
