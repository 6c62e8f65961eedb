//! Run-time values: integers and closures.
use crate::de_bruijn::{Expr, ExprRef};
use vstd::prelude::*;

verus! {

/// A value on the evaluator's heap. A closure's `env[k]` is the value bound by
/// the `(k + 1)`-th enclosing binder, counted from the outside.
#[derive(Clone, Debug, PartialEq, Eq)]
pub enum Value<'expr, 'value> {
    U64(u64),
    Closure { env: Vec<&'value Value<'expr, 'value>>, body: ExprRef<'expr> },
}

/// What a `Value` denotes: the same tree with the environment as a sequence.
pub enum ValueView<'expr> {
    U64(u64),
    Closure { env: Seq<ValueView<'expr>>, body: Expr<'expr> },
}

impl<'expr, 'value> View for Value<'expr, 'value> {
    type V = ValueView<'expr>;

    open spec fn view(&self) -> ValueView<'expr>
        decreases self,
    {
        match self {
            Value::U64(n) => ValueView::U64(*n),
            Value::Closure { env, body } => ValueView::Closure {
                env: env_view(env@),
                body: **body,
            },
        }
    }
}

/// The denotations of the values of an environment, in order.
pub open spec fn env_view<'expr, 'value>(env: Seq<&'value Value<'expr, 'value>>) -> Seq<
    ValueView<'expr>,
>
    decreases env,
{
    if env.len() == 0 {
        Seq::empty()
    } else {
        env_view(env.drop_last()).push(env.last().view())
    }
}

/// `env_view` maps `view` over the environment, position by position.
pub proof fn lemma_env_view<'expr, 'value>(env: Seq<&'value Value<'expr, 'value>>)
    ensures
        env_view(env).len() == env.len(),
        forall|i: int| 0 <= i < env.len() ==> (#[trigger] env_view(env)[i]) == env[i]@,
    decreases env.len(),
{
    if env.len() > 0 {
        lemma_env_view(env.drop_last());
        assert(env_view(env) == env_view(env.drop_last()).push(env.last().view()));
    } else {
        assert(env_view(env) == Seq::<ValueView>::empty());
    }
}

/// Extending an environment extends its view.
pub proof fn lemma_env_view_push<'expr, 'value>(
    env: Seq<&'value Value<'expr, 'value>>,
    value: &'value Value<'expr, 'value>,
)
    ensures
        env_view(env.push(value)) == env_view(env).push(value@),
{
    assert(env.push(value).drop_last() =~= env);
}

} // verus!
