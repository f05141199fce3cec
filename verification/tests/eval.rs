use keikaku::eval::prim::{prim_add, prim_div, prim_mul, prim_sub, Prim};
use keikaku::eval::{Env, Eval, EvalError, Object, Symbol, DEFAULT_DEPTH_LIMIT};
use keikaku::lexer::{Position, Source, Span};
use keikaku::parser::Ast;

fn at(line: usize, from: usize, to: usize) -> Span {
    Span {
        from: Position { line, col: from },
        to: Position { line, col: to },
    }
}

fn col(c: usize) -> Span {
    at(0, c, c)
}

fn sym(name: &str) -> Symbol {
    Symbol(name.to_string())
}

fn parse(text: &str) -> Vec<(Ast, Span)> {
    let tokens = Source::new("test".to_string(), text.chars().collect())
        .tokenize()
        .collect();
    Ast::parse(&tokens).unwrap()
}

fn run_in(env: &mut Env, text: &str) -> Result<Object, EvalError> {
    let program = parse(text);
    let mut eval = Eval::new(env);
    let mut last = Ok(Object::Nil);
    for (ast, span) in &program {
        last = eval.eval(ast, *span);
    }
    last
}

fn run(text: &str) -> Result<Object, EvalError> {
    let mut env = Env::default();
    run_in(&mut env, text)
}

fn num(n: i128) -> Result<Object, EvalError> {
    Ok(Object::Int(n))
}

fn word(name: &str) -> (Ast, Span) {
    (Ast::Symbol(name.to_string()), col(0))
}

fn call(items: Vec<(Ast, Span)>) -> Ast {
    Ast::List(items)
}

fn lambda(params: &[&str], body: Vec<Ast>) -> Object {
    Object::Lambda(params.iter().map(|p| sym(p)).collect(), body)
}

#[test]
fn adds_two_numbers() {
    assert_eq!(run("(+ 1 2)"), num(3));
}

#[test]
fn negates_one_argument() {
    assert_eq!(run("(- 5)"), num(-5));
    assert_eq!(run("(- -5)"), num(5));
}

#[test]
fn subtracts_the_rest_from_the_first() {
    assert_eq!(run("(- 5 2 1)"), num(2));
    assert_eq!(run("(- 5 7)"), num(-2));
}

#[test]
fn divides() {
    assert_eq!(run("(/ 10 2)"), num(5));
}

#[test]
fn division_by_a_zero_term_points_at_the_term() {
    assert_eq!(run("(/ 10 0)"), Err(EvalError::DivisionByZero(col(6))));
    assert_eq!(run("(/ 10 2 0 3)"), Err(EvalError::DivisionByZero(col(8))));
}

#[test]
fn division_rounds_toward_zero() {
    assert_eq!(run("(/ 7 2)"), num(3));
    assert_eq!(run("(/ -7 2)"), num(-3));
    assert_eq!(run("(/ 7 -2)"), num(-3));
    assert_eq!(run("(/ -7 -2)"), num(3));
    assert_eq!(run("(/ 0 5)"), num(0));
    assert_eq!(run("(/ 1 3)"), num(0));
    assert_eq!(run("(/ -1 3)"), num(0));
}

#[test]
fn division_by_the_sum_of_the_divisors() {
    assert_eq!(run("(/ 100 3 2)"), num(20));
    assert_eq!(run("(/ 100 7 -2)"), num(20));
}

#[test]
fn divisors_that_add_up_to_zero_point_at_the_call() {
    assert_eq!(run("(/ 10 1 -1)"), Err(EvalError::DivisionByZero(col(1))));
}

#[test]
fn division_needs_a_numerator_and_a_divisor() {
    assert_eq!(run("(/)"), Err(EvalError::WrongArity(col(1))));
    assert_eq!(run("(/ 5)"), Err(EvalError::WrongArity(col(1))));
}

#[test]
fn division_checks_the_numerator_first() {
    assert_eq!(run("(/ ())"), Err(EvalError::InvalidType(at(0, 3, 4))));
    assert_eq!(run("(/ () 0)"), Err(EvalError::InvalidType(at(0, 3, 4))));
}

#[test]
fn division_reports_the_first_bad_divisor() {
    assert_eq!(run("(/ 10 0 ())"), Err(EvalError::DivisionByZero(col(6))));
    assert_eq!(run("(/ 10 () 0)"), Err(EvalError::InvalidType(at(0, 6, 7))));
}

#[test]
fn defines_and_looks_up() {
    let mut env = Env::default();
    assert_eq!(run_in(&mut env, "(def x 5)"), Ok(Object::Nil));
    assert_eq!(run_in(&mut env, "x"), num(5));
}

#[test]
fn an_unbound_name_is_unknown() {
    assert_eq!(run("y"), Err(EvalError::UnknownDef(col(0), sym("y"))));
    assert_eq!(run("  why"), Err(EvalError::UnknownDef(at(0, 2, 4), sym("why"))));
}

#[test]
fn the_empty_list_is_nil() {
    assert_eq!(run("()"), Ok(Object::Nil));
}

#[test]
fn def_alone_is_an_empty_def() {
    assert_eq!(run("(def)"), Err(EvalError::EmptyDef(at(0, 1, 3))));
    assert_eq!(run("def"), Err(EvalError::EmptyDef(at(0, 0, 2))));
}

#[test]
fn a_list_that_starts_with_a_number_is_rejected() {
    assert_eq!(run("(5 6)"), Err(EvalError::InvalidForm(at(0, 0, 4))));
    assert_eq!(run(" (5)"), Err(EvalError::InvalidForm(at(0, 1, 3))));
}

#[test]
fn a_list_that_starts_with_a_list_is_rejected() {
    assert_eq!(run("((+ 1 2) 3)"), Err(EvalError::InvalidForm(at(0, 0, 10))));
    assert_eq!(run("(() 1)"), Err(EvalError::InvalidForm(at(0, 0, 5))));
}

#[test]
fn a_malformed_def_is_rejected() {
    assert_eq!(run("(def x)"), Err(EvalError::InvalidForm(at(0, 0, 6))));
    assert_eq!(run("(def 5 6)"), Err(EvalError::InvalidForm(at(0, 0, 8))));
    assert_eq!(run("(def x 1 2)"), Err(EvalError::InvalidForm(at(0, 0, 10))));
    assert_eq!(run("(def def 1)"), Err(EvalError::InvalidForm(at(0, 0, 10))));
    assert_eq!(run("(def (x) 1)"), Err(EvalError::InvalidForm(at(0, 0, 10))));
}

#[test]
fn a_later_def_overwrites() {
    let mut env = Env::default();
    run_in(&mut env, "(def x 1) (def x 2)").unwrap();
    assert_eq!(run_in(&mut env, "x"), num(2));
}

#[test]
fn def_evaluates_its_expression() {
    let mut env = Env::default();
    run_in(&mut env, "(def x (+ 1 2)) (def y (* x x))").unwrap();
    assert_eq!(run_in(&mut env, "y"), num(9));
}

#[test]
fn a_failed_def_binds_nothing() {
    let mut env = Env::default();
    assert_eq!(
        run_in(&mut env, "(def x y)"),
        Err(EvalError::UnknownDef(col(7), sym("y")))
    );
    assert_eq!(run_in(&mut env, "x"), Err(EvalError::UnknownDef(col(0), sym("x"))));
}

#[test]
fn operators_can_be_rebound_and_aliased() {
    let mut env = Env::default();
    run_in(&mut env, "(def plus +)").unwrap();
    assert_eq!(run_in(&mut env, "(plus 2 3)"), num(5));
    run_in(&mut env, "(def + *)").unwrap();
    assert_eq!(run_in(&mut env, "(+ 2 3)"), num(6));
}

#[test]
fn a_bare_operator_is_a_value() {
    assert_eq!(run("+"), Ok(Object::PrimOp(Prim::Add)));
    assert_eq!(run("/"), Ok(Object::PrimOp(Prim::Div)));
}

#[test]
fn calls_nest() {
    assert_eq!(run("(+ (* 2 3) (- 10 4) (/ 9 3))"), num(15));
}

#[test]
fn operators_without_arguments() {
    assert_eq!(run("(+)"), num(0));
    assert_eq!(run("(*)"), num(1));
    assert_eq!(run("(-)"), Err(EvalError::WrongArity(col(1))));
}

#[test]
fn multiplies() {
    assert_eq!(run("(* 2 3 4)"), num(24));
    assert_eq!(run("(* 7)"), num(7));
    assert_eq!(run("(* -2 3)"), num(-6));
}

#[test]
fn the_first_argument_that_is_no_integer_is_a_type_error() {
    assert_eq!(run("(+ 1 () 2)"), Err(EvalError::InvalidType(at(0, 5, 6))));
    assert_eq!(run("(+ () ())"), Err(EvalError::InvalidType(at(0, 3, 4))));
    assert_eq!(run("(* 2 + ())"), Err(EvalError::InvalidType(col(5))));
    assert_eq!(run("(- ())"), Err(EvalError::InvalidType(at(0, 3, 4))));
    assert_eq!(run("(- 1 () +)"), Err(EvalError::InvalidType(at(0, 5, 6))));
}

#[test]
fn subtraction_takes_a_first_argument_that_is_no_integer_as_zero() {
    assert_eq!(run("(- () 5 1)"), num(-6));
    assert_eq!(run("(- + 5)"), num(-5));
    assert_eq!(run("(- () ())"), Err(EvalError::InvalidType(at(0, 6, 7))));
}

#[test]
fn arithmetic_wraps_at_128_bits() {
    assert_eq!(run("(+ 170141183460469231731687303715884105727 1)"), num(i128::MIN));
    assert_eq!(run("(- -170141183460469231731687303715884105728 1)"), num(i128::MAX));
    assert_eq!(run("(* 170141183460469231731687303715884105727 2)"), num(-2));
    assert_eq!(run("(- -170141183460469231731687303715884105728)"), num(i128::MIN));
    assert_eq!(run("(/ -170141183460469231731687303715884105728 -1)"), num(i128::MIN));
}

#[test]
fn divisors_that_wrap_to_zero_are_a_division_by_zero() {
    assert_eq!(
        run("(/ 1 -170141183460469231731687303715884105728 -170141183460469231731687303715884105728)"),
        Err(EvalError::DivisionByZero(col(1)))
    );
}

#[test]
fn arguments_are_evaluated_from_left_to_right() {
    let mut env = Env::default();
    assert_eq!(
        run_in(&mut env, "(+ (def a 1) b)"),
        Err(EvalError::UnknownDef(col(13), sym("b")))
    );
    assert_eq!(run_in(&mut env, "a"), num(1));
    assert_eq!(
        run_in(&mut env, "(+ c (def d 1))"),
        Err(EvalError::UnknownDef(col(3), sym("c")))
    );
    assert_eq!(run_in(&mut env, "d"), Err(EvalError::UnknownDef(col(0), sym("d"))));
}

#[test]
fn an_error_in_an_argument_comes_before_the_operator_runs() {
    assert_eq!(run("(/ 1 0 y)"), Err(EvalError::UnknownDef(col(7), sym("y"))));
    assert_eq!(run("(- (5 6))"), Err(EvalError::InvalidForm(at(0, 3, 7))));
}

#[test]
fn calling_an_unbound_name_is_unknown() {
    assert_eq!(run("(f 1 2)"), Err(EvalError::UnknownDef(col(1), sym("f"))));
    assert_eq!(run("(f)"), Err(EvalError::UnknownDef(col(1), sym("f"))));
    assert_eq!(run("(f y)"), Err(EvalError::UnknownDef(col(1), sym("f"))));
}

#[test]
fn calling_a_value_is_not_a_function() {
    let mut env = Env::default();
    run_in(&mut env, "(def x 5) (def n ())").unwrap();
    assert_eq!(run_in(&mut env, "(x 1)"), Err(EvalError::NotAFunction(col(1), sym("x"))));
    assert_eq!(run_in(&mut env, "(x)"), Err(EvalError::NotAFunction(col(1), sym("x"))));
    assert_eq!(run_in(&mut env, "(n y)"), Err(EvalError::NotAFunction(col(1), sym("n"))));
}

#[test]
fn a_function_binds_its_parameters() {
    let mut env = Env::default();
    let body = call(vec![word("+"), word("x"), (Ast::Int(1), col(0))]);
    env.define(sym("inc"), lambda(&["x"], vec![body]));
    assert_eq!(run_in(&mut env, "(inc 41)"), num(42));
    assert_eq!(run_in(&mut env, "(inc (inc 1))"), num(3));
}

#[test]
fn a_function_gives_the_value_of_its_last_expression() {
    let mut env = Env::default();
    let first = call(vec![(Ast::Def, col(0)), word("seen"), word("x")]);
    let last = call(vec![word("*"), word("x"), word("y")]);
    env.define(sym("f"), lambda(&["x", "y"], vec![first, last]));
    assert_eq!(run_in(&mut env, "(f 6 7)"), num(42));
    assert_eq!(run_in(&mut env, "seen"), num(6));
}

#[test]
fn a_function_without_parameters_is_called_without_arguments() {
    let mut env = Env::default();
    env.define(sym("seven"), lambda(&[], vec![Ast::Int(7)]));
    assert_eq!(run_in(&mut env, "(seven)"), num(7));
    assert_eq!(run_in(&mut env, "(+ (seven) 1)"), num(8));
}

#[test]
fn a_function_without_a_body_gives_nil() {
    let mut env = Env::default();
    env.define(sym("nothing"), lambda(&["x"], vec![]));
    assert_eq!(run_in(&mut env, "(nothing 1)"), Ok(Object::Nil));
}

#[test]
fn a_function_takes_as_many_arguments_as_parameters() {
    let mut env = Env::default();
    env.define(sym("f"), lambda(&["x", "y"], vec![Ast::Int(0)]));
    assert_eq!(run_in(&mut env, "(f 1)"), Err(EvalError::WrongArity(col(1))));
    assert_eq!(run_in(&mut env, "(f)"), Err(EvalError::WrongArity(col(1))));
    assert_eq!(run_in(&mut env, "(f 1 2 3)"), Err(EvalError::WrongArity(col(1))));
    assert_eq!(run_in(&mut env, "(f 1 2)"), num(0));
}

#[test]
fn the_arguments_of_a_function_are_evaluated_before_the_arity_is_checked() {
    let mut env = Env::default();
    env.define(sym("f"), lambda(&["x"], vec![Ast::Int(0)]));
    assert_eq!(
        run_in(&mut env, "(f 1 y)"),
        Err(EvalError::UnknownDef(col(5), sym("y")))
    );
}

#[test]
fn parameters_are_unbound_again_after_the_call() {
    let mut env = Env::default();
    env.define(sym("id"), lambda(&["x"], vec![Ast::Symbol("x".to_string())]));
    assert_eq!(run_in(&mut env, "(id 3)"), num(3));
    assert_eq!(run_in(&mut env, "x"), Err(EvalError::UnknownDef(col(0), sym("x"))));
}

#[test]
fn parameters_shadow_and_are_restored() {
    let mut env = Env::default();
    env.define(sym("id"), lambda(&["x"], vec![Ast::Symbol("x".to_string())]));
    run_in(&mut env, "(def x 10)").unwrap();
    assert_eq!(run_in(&mut env, "(id 3)"), num(3));
    assert_eq!(run_in(&mut env, "x"), num(10));
    assert_eq!(run_in(&mut env, "(+ x (id 1) x)"), num(21));
}

#[test]
fn parameters_are_restored_after_a_failed_body() {
    let mut env = Env::default();
    env.define(sym("bad"), lambda(&["x"], vec![Ast::Symbol("nowhere".to_string())]));
    run_in(&mut env, "(def x 10)").unwrap();
    assert_eq!(
        run_in(&mut env, "(bad 3)"),
        Err(EvalError::UnknownDef(at(0, 1, 3), sym("nowhere")))
    );
    assert_eq!(run_in(&mut env, "x"), num(10));
}

#[test]
fn a_def_of_a_parameter_inside_a_body_does_not_outlive_the_call() {
    let mut env = Env::default();
    let redefine = call(vec![(Ast::Def, col(0)), word("x"), (Ast::Int(99), col(0))]);
    env.define(
        sym("f"),
        lambda(&["x"], vec![redefine, Ast::Symbol("x".to_string())]),
    );
    assert_eq!(run_in(&mut env, "(f 1)"), num(99));
    assert_eq!(run_in(&mut env, "x"), Err(EvalError::UnknownDef(col(0), sym("x"))));
}

#[test]
fn a_repeated_parameter_takes_the_last_argument() {
    let mut env = Env::default();
    env.define(sym("f"), lambda(&["x", "x"], vec![Ast::Symbol("x".to_string())]));
    run_in(&mut env, "(def x 5)").unwrap();
    assert_eq!(run_in(&mut env, "(f 1 2)"), num(2));
    assert_eq!(run_in(&mut env, "x"), num(5));
}

#[test]
fn functions_are_values() {
    let mut env = Env::default();
    let f = lambda(&["x"], vec![Ast::Symbol("x".to_string())]);
    env.define(sym("id"), f.clone());
    assert_eq!(run_in(&mut env, "id"), Ok(f.clone()));
    run_in(&mut env, "(def same id)").unwrap();
    assert_eq!(run_in(&mut env, "(same 8)"), num(8));
    assert_eq!(run_in(&mut env, "(+ 1 id)"), Err(EvalError::InvalidType(at(0, 5, 6))));
}

#[test]
fn endless_recursion_is_stopped() {
    let mut env = Env::default();
    env.define(sym("loop"), lambda(&[], vec![call(vec![word("loop")])]));
    assert_eq!(
        run_in(&mut env, "(loop)"),
        Err(EvalError::RecursionTooDeep(col(0)))
    );
}

#[test]
fn the_depth_limit_counts_nested_calls() {
    let mut env = Env::default();
    env.define(sym("one"), lambda(&[], vec![Ast::Int(1)]));
    env.define(sym("two"), lambda(&[], vec![call(vec![word("one")])]));
    let program = parse("(two) (one)");
    {
        let mut eval = Eval::with_depth_limit(&mut env, 2);
        assert_eq!(eval.eval(&program[0].0, program[0].1), num(1));
    }
    {
        let mut eval = Eval::with_depth_limit(&mut env, 1);
        assert_eq!(
            eval.eval(&program[0].0, program[0].1),
            Err(EvalError::RecursionTooDeep(col(0)))
        );
        assert_eq!(eval.eval(&program[1].0, program[1].1), num(1));
    }
    {
        let mut eval = Eval::with_depth_limit(&mut env, 0);
        assert_eq!(
            eval.eval(&program[1].0, program[1].1),
            Err(EvalError::RecursionTooDeep(at(0, 7, 9)))
        );
        let sum = parse("(+ 1 2)");
        assert_eq!(eval.eval(&sum[0].0, sum[0].1), num(3));
    }
}

#[test]
fn new_uses_the_default_depth_limit() {
    let mut env = Env::default();
    let eval = Eval::new(&mut env);
    assert_eq!(eval.depth_limit, DEFAULT_DEPTH_LIMIT);
}

#[test]
fn the_evaluator_writes_to_the_environment_it_was_given() {
    let mut env = Env::default();
    let program = parse("(def x 1)");
    {
        let mut eval = Eval::new(&mut env);
        eval.eval(&program[0].0, program[0].1).unwrap();
    }
    assert_eq!(env.lookup(&sym("x")), Some(Object::Int(1)));
}

#[test]
fn the_default_environment_holds_the_four_operators() {
    let env = Env::default();
    assert_eq!(env.lookup(&sym("+")), Some(Object::PrimOp(Prim::Add)));
    assert_eq!(env.lookup(&sym("-")), Some(Object::PrimOp(Prim::Sub)));
    assert_eq!(env.lookup(&sym("*")), Some(Object::PrimOp(Prim::Mul)));
    assert_eq!(env.lookup(&sym("/")), Some(Object::PrimOp(Prim::Div)));
    assert_eq!(env.lookup(&sym("x")), None);
    assert_eq!(env.lookup(&sym("")), None);
}

#[test]
fn define_inserts_or_overwrites_and_gives_nil() {
    let mut env = Env::default();
    assert_eq!(env.define(sym("x"), Object::Int(1)), Object::Nil);
    assert_eq!(env.lookup(&sym("x")), Some(Object::Int(1)));
    assert_eq!(env.define(sym("x"), Object::Nil), Object::Nil);
    assert_eq!(env.lookup(&sym("x")), Some(Object::Nil));
    assert_eq!(env.lookup(&sym("+")), Some(Object::PrimOp(Prim::Add)));
}

#[test]
fn operators_on_values() {
    let span = col(9);
    let one = (Object::Int(1), col(1));
    let two = (Object::Int(2), col(2));
    let nil = (Object::Nil, col(3));
    assert_eq!(prim_add(span, &[one.clone(), two.clone()]), num(3));
    assert_eq!(prim_mul(span, &[two.clone(), two.clone()]), num(4));
    assert_eq!(prim_sub(span, &[one.clone(), two.clone()]), num(-1));
    assert_eq!(prim_div(span, &[two.clone(), one.clone()]), num(2));
    assert_eq!(prim_add(span, &[one.clone(), nil.clone()]), Err(EvalError::InvalidType(col(3))));
    assert_eq!(prim_sub(span, &[]), Err(EvalError::WrongArity(span)));
    assert_eq!(prim_div(span, &[one.clone()]), Err(EvalError::WrongArity(span)));
    assert_eq!(Prim::Add.apply(span, &[one.clone(), one.clone()]), num(2));
    assert_eq!(Prim::Sub.apply(span, &[one.clone()]), num(-1));
    assert_eq!(Prim::Mul.apply(span, &[]), num(1));
    assert_eq!(Prim::Div.apply(span, &[]), Err(EvalError::WrongArity(span)));
}

#[test]
fn eval_errors_render_as_sentences() {
    let span = at(0, 3, 7);
    assert_eq!(EvalError::DivisionByZero(span).as_string(), "division by zero at 1:3-1:7");
    assert_eq!(EvalError::EmptyDef(span).as_string(), "empty def at 1:3-1:7");
    assert_eq!(
        EvalError::NotAFunction(span, sym("x")).as_string(),
        "`x` is not a function at 1:3-1:7"
    );
    assert_eq!(
        EvalError::InvalidType(span).as_string(),
        "unexpected argument type at 1:3-1:7"
    );
    assert_eq!(
        EvalError::UnknownDef(span, sym("why")).as_string(),
        "undefined symbol: `why` at 1:3-1:7"
    );
    assert_eq!(EvalError::WrongArity(span).as_string(), "wrong arity at 1:3-1:7");
    assert_eq!(
        EvalError::InvalidForm(span).as_string(),
        "cannot evaluate this form at 1:3-1:7"
    );
    assert_eq!(
        EvalError::RecursionTooDeep(span).as_string(),
        "recursion too deep at 1:3-1:7"
    );
}

#[test]
fn objects_render_as_text() {
    assert_eq!(Object::Int(0).as_string(), "0");
    assert_eq!(Object::Int(-5).as_string(), "-5");
    assert_eq!(Object::Int(1200).as_string(), "1200");
    assert_eq!(
        Object::Int(i128::MAX).as_string(),
        "170141183460469231731687303715884105727"
    );
    assert_eq!(
        Object::Int(i128::MIN).as_string(),
        "-170141183460469231731687303715884105728"
    );
    assert_eq!(Object::Nil.as_string(), "()");
    assert_eq!(Object::PrimOp(Prim::Add).as_string(), "#primop#");
    assert_eq!(lambda(&[], vec![]).as_string(), "#lambda()#");
    assert_eq!(lambda(&["x"], vec![]).as_string(), "#lambda(x)#");
    assert_eq!(lambda(&["x", "y", "zed"], vec![Ast::Def]).as_string(), "#lambda(x y zed)#");
}

#[test]
fn symbols_and_objects_clone_equal() {
    assert_eq!(sym("abc").clone(), sym("abc"));
    let f = lambda(&["x"], vec![call(vec![word("x")])]);
    assert_eq!(f.clone(), f);
    assert_eq!(Object::Int(3).clone(), Object::Int(3));
}
