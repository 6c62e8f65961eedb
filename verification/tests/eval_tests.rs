use lambda_lang::de_bruijn::{Expr, ExprBuilder, ExprRef};
use lambda_lang::eval::heap::{size_in_items, Heap};
use lambda_lang::eval::machine::{Code, Cont, Machine, Step};
use lambda_lang::eval::semantics::EvalError;
use lambda_lang::eval::value::Value;
use lambda_lang::eval::{eval, eval_loop};

const FUEL: u64 = 10_000;

#[test]
fn test_eval1() {
    let input = &Expr::Lam(&Expr::Var(0));
    let output = &Value::Closure {
        env: Vec::new(),
        body: &Expr::Var(0),
    };
    let heap = Heap::with_capacity(1024);
    assert_eq!(eval(&heap, &Vec::new(), input, FUEL), Ok(output))
}

#[test]
fn test_eval2() {
    let id = &Expr::Lam(&Expr::Var(0));
    let input = &Expr::App(id, id);
    let output = &Value::Closure {
        env: Vec::new(),
        body: &Expr::Var(0),
    };
    let heap = Heap::with_capacity(1024);
    assert_eq!(eval(&heap, &Vec::new(), input, FUEL), Ok(output))
}

#[test]
fn test_eval3() {
    let id = &Expr::Lam(&Expr::Var(0));
    let id_value = &Value::Closure {
        env: Vec::new(),
        body: &Expr::Var(0),
    };
    let konst = &Expr::Lam(&Expr::Lam(&Expr::Var(1)));
    let input = &Expr::App(konst, id);
    let output = &Value::Closure {
        env: vec![id_value],
        body: &Expr::Var(1),
    };
    let heap = Heap::with_capacity(1024);
    assert_eq!(eval(&heap, &Vec::new(), input, FUEL), Ok(output))
}

#[test]
fn test_eval4() {
    let id = &Expr::Lam(&Expr::Var(0));
    let konst = &Expr::Lam(&Expr::Lam(&Expr::Var(1)));
    let konst_id = &Expr::App(konst, id);
    let input = &Expr::App(konst_id, konst);
    let output = &Value::Closure {
        env: Vec::new(),
        body: &Expr::Var(0),
    };
    let heap = Heap::with_capacity(1024);
    assert_eq!(eval(&heap, &Vec::new(), input, FUEL), Ok(output))
}

#[test]
fn test_eval5() {
    let plus = &Expr::Lam(&Expr::Lam(&Expr::AddU64(&Expr::Var(0), &Expr::Var(1))));
    let plus_9 = &Expr::App(plus, &Expr::U64(9));
    let input = &Expr::App(plus_9, &Expr::U64(7));
    let output = &Value::U64(16);
    let heap = Heap::with_capacity(1024);
    assert_eq!(eval(&heap, &Vec::new(), input, FUEL), Ok(output))
}

#[test]
fn test_eval6() {
    let plus = &Expr::Lam(&Expr::Lam(&Expr::AddU64(&Expr::Var(0), &Expr::Var(1))));
    let apply_9_7 = &Expr::Lam(&Expr::App(
        &Expr::App(&Expr::Var(0), &Expr::U64(9)),
        &Expr::U64(7),
    ));
    let input = &Expr::App(apply_9_7, plus);
    let output = &Value::U64(16);
    let heap = Heap::with_capacity(1024);
    assert_eq!(eval(&heap, &Vec::new(), input, FUEL), Ok(output))
}

#[test]
fn test_eval_loop1() {
    let input = &Expr::Lam(&Expr::Var(0));
    let output = &Value::Closure {
        env: Vec::new(),
        body: &Expr::Var(0),
    };
    let heap = Heap::with_capacity(1024);
    assert_eq!(eval_loop(&heap, input, FUEL), Ok(output))
}

#[test]
fn test_eval_loop2() {
    let id = &Expr::Lam(&Expr::Var(0));
    let input = &Expr::App(id, id);
    let output = &Value::Closure {
        env: Vec::new(),
        body: &Expr::Var(0),
    };
    let heap = Heap::with_capacity(1024);
    assert_eq!(eval_loop(&heap, input, FUEL), Ok(output))
}

#[test]
fn test_eval_loop3() {
    let id = &Expr::Lam(&Expr::Var(0));
    let id_value = &Value::Closure {
        env: Vec::new(),
        body: &Expr::Var(0),
    };
    let konst = &Expr::Lam(&Expr::Lam(&Expr::Var(1)));
    let input = &Expr::App(konst, id);
    let output = &Value::Closure {
        env: vec![id_value],
        body: &Expr::Var(1),
    };
    let heap = Heap::with_capacity(1024);
    assert_eq!(eval_loop(&heap, input, FUEL), Ok(output))
}

#[test]
fn test_eval_loop4() {
    let id = &Expr::Lam(&Expr::Var(0));
    let konst = &Expr::Lam(&Expr::Lam(&Expr::Var(1)));
    let konst_id = &Expr::App(konst, id);
    let input = &Expr::App(konst_id, konst);
    let output = &Value::Closure {
        env: Vec::new(),
        body: &Expr::Var(0),
    };
    let heap = Heap::with_capacity(1024);
    assert_eq!(eval_loop(&heap, input, FUEL), Ok(output))
}

#[test]
fn test_eval_loop5() {
    let plus = &Expr::Lam(&Expr::Lam(&Expr::AddU64(&Expr::Var(0), &Expr::Var(1))));
    let plus_9 = &Expr::App(plus, &Expr::U64(9));
    let input = &Expr::App(plus_9, &Expr::U64(7));
    let output = &Value::U64(16);
    let heap = Heap::with_capacity(1024);
    assert_eq!(eval_loop(&heap, input, FUEL), Ok(output))
}

#[test]
fn test_eval_loop6() {
    let plus = &Expr::Lam(&Expr::Lam(&Expr::AddU64(&Expr::Var(0), &Expr::Var(1))));
    let apply_9_7 = &Expr::Lam(&Expr::App(
        &Expr::App(&Expr::Var(0), &Expr::U64(9)),
        &Expr::U64(7),
    ));
    let input = &Expr::App(apply_9_7, plus);
    let output = &Value::U64(16);
    let heap = Heap::with_capacity(1024);
    assert_eq!(eval_loop(&heap, input, FUEL), Ok(output))
}

/// The sum of the list 0, 1, .., 5 in Church encoding: the list folded with
/// addition from 0.
fn build_eval_expr<'builder, 'value>(builder: &'builder ExprBuilder<'value>) -> ExprRef<'value>
where
    'builder: 'value,
{
    // \n -> \c -> n
    let nil = builder.mk_lam(builder.mk_lam(builder.mk_var(1)));
    // \a -> \b -> \n -> \c -> c a (b n c)
    let cons = builder.mk_lam(builder.mk_lam(builder.mk_lam(builder.mk_lam(
        builder.mk_app(
            builder.mk_app(builder.mk_var(0), builder.mk_var(3)),
            builder.mk_app(
                builder.mk_app(builder.mk_var(2), builder.mk_var(1)),
                builder.mk_var(0),
            ),
        ),
    ))));
    let mut list = nil;
    for n in (0..6u64).rev() {
        list = builder.mk_app(builder.mk_app(cons, builder.mk_u64(n)), list);
    }
    builder.mk_app(
        builder.mk_app(list, builder.mk_u64(0)),
        // \a -> \b -> a + b
        builder.mk_lam(builder.mk_lam(builder.mk_addu64(
            builder.mk_var(1),
            builder.mk_var(0),
        ))),
    )
}

#[test]
fn church_list_sum_is_15() {
    let builder = ExprBuilder::new();
    let expr = build_eval_expr(&builder);
    let heap = Heap::with_capacity(1024);
    assert_eq!(eval_loop(&heap, expr, FUEL), Ok(&Value::U64(15)));
    assert_eq!(eval(&heap, &Vec::new(), expr, FUEL), Ok(&Value::U64(15)));
}

#[test]
fn both_evaluators_agree() {
    let id = &Expr::Lam(&Expr::Var(0));
    let konst = &Expr::Lam(&Expr::Lam(&Expr::Var(1)));
    let plus = &Expr::Lam(&Expr::Lam(&Expr::AddU64(&Expr::Var(0), &Expr::Var(1))));
    let konst_1 = Expr::App(konst, &Expr::U64(1));
    let plus_max = Expr::App(plus, &Expr::U64(u64::MAX));
    let cases: Vec<Expr> = vec![
        Expr::U64(3),
        Expr::App(id, &Expr::U64(3)),
        Expr::App(&konst_1, id),
        Expr::App(&plus_max, &Expr::U64(2)),
        Expr::App(konst, plus),
        Expr::App(&Expr::U64(1), id),
        Expr::AddU64(id, &Expr::U64(1)),
        Expr::AddU64(&Expr::U64(1), id),
        Expr::Var(0),
        Expr::Lam(&Expr::Var(7)),
    ];
    for case in cases.iter() {
        let heap = Heap::with_capacity(1024);
        assert_eq!(
            eval(&heap, &Vec::new(), case, FUEL),
            eval_loop(&heap, case, FUEL)
        );
    }
}

#[test]
fn addition_wraps_modulo_two_to_the_64() {
    let heap = Heap::with_capacity(64);
    let input = &Expr::AddU64(&Expr::U64(u64::MAX), &Expr::U64(3));
    assert_eq!(eval(&heap, &Vec::new(), input, FUEL), Ok(&Value::U64(2)));
    assert_eq!(eval_loop(&heap, input, FUEL), Ok(&Value::U64(2)));
    let flipped = &Expr::AddU64(&Expr::U64(3), &Expr::U64(u64::MAX));
    assert_eq!(eval(&heap, &Vec::new(), flipped, FUEL), Ok(&Value::U64(2)));
    let nested_left = &Expr::AddU64(
        &Expr::AddU64(&Expr::U64(u64::MAX), &Expr::U64(5)),
        &Expr::U64(u64::MAX - 1),
    );
    let nested_right = &Expr::AddU64(
        &Expr::U64(u64::MAX),
        &Expr::AddU64(&Expr::U64(5), &Expr::U64(u64::MAX - 1)),
    );
    assert_eq!(
        eval_loop(&heap, nested_left, FUEL),
        eval_loop(&heap, nested_right, FUEL)
    );
    assert_eq!(eval_loop(&heap, nested_left, FUEL), Ok(&Value::U64(2)));
}

#[test]
fn variable_reads_from_the_right_end_of_the_environment() {
    let heap = Heap::with_capacity(64);
    let ten = heap.allocate(Value::U64(10));
    let twenty = heap.allocate(Value::U64(20));
    let env = vec![ten, twenty];
    assert_eq!(eval(&heap, &env, &Expr::Var(0), FUEL), Ok(&Value::U64(20)));
    assert_eq!(eval(&heap, &env, &Expr::Var(1), FUEL), Ok(&Value::U64(10)));
    assert_eq!(
        eval(&heap, &env, &Expr::Var(2), FUEL),
        Err(EvalError::UnboundVariable)
    );
}

#[test]
fn applying_an_integer_fails() {
    let heap = Heap::with_capacity(64);
    let input = &Expr::App(&Expr::U64(1), &Expr::U64(2));
    assert_eq!(
        eval(&heap, &Vec::new(), input, FUEL),
        Err(EvalError::NotAClosure)
    );
    assert_eq!(eval_loop(&heap, input, FUEL), Err(EvalError::NotAClosure));
}

#[test]
fn adding_a_closure_fails() {
    let heap = Heap::with_capacity(64);
    let id = &Expr::Lam(&Expr::Var(0));
    let left = &Expr::AddU64(id, &Expr::U64(2));
    let right = &Expr::AddU64(&Expr::U64(2), id);
    assert_eq!(
        eval(&heap, &Vec::new(), left, FUEL),
        Err(EvalError::NotAnInteger)
    );
    assert_eq!(eval_loop(&heap, left, FUEL), Err(EvalError::NotAnInteger));
    assert_eq!(
        eval(&heap, &Vec::new(), right, FUEL),
        Err(EvalError::NotAnInteger)
    );
    assert_eq!(eval_loop(&heap, right, FUEL), Err(EvalError::NotAnInteger));
}

#[test]
fn function_is_checked_before_argument_is_evaluated() {
    let heap = Heap::with_capacity(64);
    // The argument would fail on a free variable, but the function fails first.
    let input = &Expr::App(&Expr::U64(1), &Expr::Var(0));
    assert_eq!(
        eval(&heap, &Vec::new(), input, FUEL),
        Err(EvalError::NotAClosure)
    );
    assert_eq!(eval_loop(&heap, input, FUEL), Err(EvalError::NotAClosure));
}

#[test]
fn free_variable_fails() {
    let heap = Heap::with_capacity(64);
    let input = &Expr::App(&Expr::Lam(&Expr::Var(1)), &Expr::U64(0));
    assert_eq!(
        eval(&heap, &Vec::new(), input, FUEL),
        Err(EvalError::UnboundVariable)
    );
    assert_eq!(
        eval_loop(&heap, input, FUEL),
        Err(EvalError::UnboundVariable)
    );
}

#[test]
fn divergence_runs_out_of_fuel() {
    let heap = Heap::with_capacity(1024);
    let twice = &Expr::Lam(&Expr::App(&Expr::Var(0), &Expr::Var(0)));
    let omega = &Expr::App(twice, twice);
    assert_eq!(
        eval(&heap, &Vec::new(), omega, 50),
        Err(EvalError::OutOfFuel)
    );
    assert_eq!(eval_loop(&heap, omega, 500), Err(EvalError::OutOfFuel));
}

#[test]
fn fuel_counts_depth_and_steps() {
    let heap = Heap::with_capacity(64);
    let id = &Expr::Lam(&Expr::Var(0));
    let input = &Expr::App(id, &Expr::U64(4));
    // Two levels: the application, and its parts or the body.
    assert_eq!(eval(&heap, &Vec::new(), input, 0), Err(EvalError::OutOfFuel));
    assert_eq!(eval(&heap, &Vec::new(), input, 1), Err(EvalError::OutOfFuel));
    assert_eq!(eval(&heap, &Vec::new(), input, 2), Ok(&Value::U64(4)));
    // Six transitions before the one that halts.
    assert_eq!(eval_loop(&heap, input, 5), Err(EvalError::OutOfFuel));
    assert_eq!(eval_loop(&heap, input, 6), Ok(&Value::U64(4)));
    assert_eq!(eval_loop(&heap, &Expr::U64(1), 0), Err(EvalError::OutOfFuel));
    assert_eq!(eval_loop(&heap, &Expr::U64(1), 1), Ok(&Value::U64(1)));
}

#[test]
fn machine_steps_through_an_application() {
    let heap = Heap::with_capacity(64);
    let id = &Expr::Lam(&Expr::Var(0));
    let input = &Expr::App(id, &Expr::U64(4));
    let mut machine = Machine::new(input);
    // Push the frame for the function position.
    assert!(matches!(machine.step(&heap), Step::Continue));
    assert!(matches!(machine.code, Code::Input(Expr::Lam(_))));
    assert!(matches!(machine.cont.last(), Some(Cont::AppL(_, Expr::U64(4)))));
    // The function becomes a closure.
    assert!(matches!(machine.step(&heap), Step::Continue));
    assert!(matches!(machine.code, Code::Output(Value::Closure { .. })));
    // The closure meets the frame: on to the argument.
    assert!(matches!(machine.step(&heap), Step::Continue));
    assert!(matches!(machine.code, Code::Input(Expr::U64(4))));
    assert!(matches!(machine.cont.last(), Some(Cont::AppR(_, Expr::Var(0)))));
    // The argument becomes a value.
    assert!(matches!(machine.step(&heap), Step::Continue));
    // The value meets the frame: on to the body, under the extended environment.
    assert!(matches!(machine.step(&heap), Step::Continue));
    assert!(matches!(machine.code, Code::Input(Expr::Var(0))));
    assert_eq!(machine.env, vec![&Value::U64(4)]);
    assert!(machine.cont.is_empty());
    // The variable is looked up.
    assert!(matches!(machine.step(&heap), Step::Continue));
    // No frame is left: the machine halts, and stays halted.
    assert!(matches!(machine.step(&heap), Step::Halt(Value::U64(4))));
    assert!(matches!(machine.step(&heap), Step::Halt(Value::U64(4))));
}

#[test]
fn stuck_machine_keeps_its_state() {
    let heap = Heap::with_capacity(64);
    let input = &Expr::AddU64(&Expr::Lam(&Expr::Var(0)), &Expr::U64(1));
    let mut machine = Machine::new(input);
    assert!(matches!(machine.step(&heap), Step::Continue));
    assert!(matches!(machine.step(&heap), Step::Continue));
    assert!(matches!(
        machine.step(&heap),
        Step::Stuck(EvalError::NotAnInteger)
    ));
    assert_eq!(machine.cont.len(), 1);
    assert!(matches!(
        machine.step(&heap),
        Step::Stuck(EvalError::NotAnInteger)
    ));
}

#[test]
fn heap_keeps_what_it_is_given() {
    let heap = Heap::with_capacity(0);
    let first = heap.allocate(Value::U64(1));
    let mut others = Vec::new();
    for n in 2..200u64 {
        others.push(heap.allocate(Value::U64(n)));
    }
    assert_eq!(first, &Value::U64(1));
    assert_eq!(others[0], &Value::U64(2));
    assert_eq!(others[197], &Value::U64(199));
}

#[test]
fn sizes_round_up_to_whole_items() {
    assert_eq!(size_in_items(1024, 8), 128);
    assert_eq!(size_in_items(1025, 8), 129);
    assert_eq!(size_in_items(0, 8), 0);
    assert_eq!(size_in_items(7, 8), 1);
    assert_eq!(size_in_items(usize::MAX, 1), usize::MAX);
    assert_eq!(size_in_items(usize::MAX, 2), usize::MAX / 2 + 1);
}
