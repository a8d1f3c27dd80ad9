use r_scheme::env::Env;
use r_scheme::eval::{binop, eval_condition, is_defined, Action, Control, Machine, Operator};
use r_scheme::lexer::{words, Token};
use r_scheme::object::{Float, Object};

fn float(x: f64) -> Float {
    Float { bits: x.to_bits(), text: format!("{}", x) }
}

fn tokens(s: &str) -> Vec<Token> {
    let mut out = Vec::new();
    for t in words(s) {
        let reading = match &t {
            Token::Symbol(text) => text.parse::<f64>().ok().map(float),
            _ => None,
        };
        out.push(t.promote(reading));
    }
    out
}

fn number(o: &Object) -> f64 {
    match o {
        Object::Integer(n) => *n as f64,
        Object::Float(f) => f64::from_bits(f.bits),
        other => panic!("no number: {:?}", other),
    }
}

/// The host's part: an operator applied to two numbers as floats.
fn compute(op: Operator, left: &Object, right: &Object) -> Object {
    let (l, r) = (number(left), number(right));
    match op {
        Operator::Add => Object::Float(float(l + r)),
        Operator::Sub => Object::Float(float(l - r)),
        Operator::Mul => Object::Float(float(l * r)),
        Operator::Div => Object::Float(float(l / r)),
        Operator::Less => Object::Bool(l < r),
        Operator::Greater => Object::Bool(l > r),
        Operator::Equal => Object::Bool(l == r),
        Operator::NotEqual => Object::Bool(l != r),
    }
}

fn drive(machine: &mut Machine) -> Result<Object, String> {
    loop {
        match machine.step() {
            Action::Continue => {}
            Action::Compute(op, left, right) => machine.answer(compute(op, &left, &right)),
            Action::Finish(result) => return result,
            Action::Idle => panic!("the machine has nothing to do"),
        }
    }
}

/// Evaluates one program text in `env`, which keeps what the program defines.
fn eval(program: &str, env: &mut Env) -> Result<Object, String> {
    let taken = std::mem::replace(env, Env::new());
    let mut machine = r_scheme::eval::eval(&tokens(program), taken);
    let result = drive(&mut machine);
    *env = machine.into_env();
    result
}

fn fresh(program: &str) -> Result<Object, String> {
    eval(program, &mut Env::new())
}

fn error(program: &str) -> String {
    fresh(program).unwrap_err()
}

#[test]
fn test_simple_add() {
    let mut env = Env::new();
    let result = eval("(+ 1 2)", &mut env).unwrap();
    assert_eq!(result, Object::Integer(3));
}

#[test]
fn test_area_of_a_circle() {
    let mut env = Env::new();
    let program = "(
                        (define r 10)
                        (define pi 314)
                        (* pi (* r r))
                      )";
    let result = eval(program, &mut env).unwrap();
    assert_eq!(
        result,
        Object::List(vec![
            Object::Bool(true),
            Object::Bool(true),
            Object::Integer((314 * 10 * 10) as i64)
        ])
    );
}

#[test]
fn test_sqr_function() {
    let mut env = Env::new();
    let program = "(
                        (define sqr (lambda (r) (* r r))) 
                        (sqr 10)
                       )";
    let result = eval(program, &mut env).unwrap();
    assert_eq!(
        result,
        Object::List(vec![Object::Bool(true), Object::Integer((10 * 10) as i64)])
    );
}

#[test]
fn test_fibonaci() {
    let mut env = Env::new();
    let program = "
            (
                (define fib (lambda (n) (if (< n 2) 1 (+ (fib (- n 1)) (fib (- n 2))))))
                (fib 10)
            )
        ";

    let result = eval(program, &mut env).unwrap();
    assert_eq!(
        result,
        Object::List(vec![Object::Bool(true), Object::Integer((89) as i64)])
    );
}

#[test]
fn test_factorial() {
    let mut env = Env::new();
    let program = "
            (
                (define fact (lambda (n) (if (< n 1) 1 (* n (fact (- n 1))))))
                (fact 5)
            )
        ";

    let result = eval(program, &mut env).unwrap();
    assert_eq!(
        result,
        Object::List(vec![Object::Bool(true), Object::Integer((120) as i64)])
    );
}

#[test]
fn test_circle_area_function() {
    let mut env = Env::new();
    let program = "
            (
                (define pi 314)
                (define r 10)
                (define sqr (lambda (r) (* r r)))
                (define area (lambda (r) (* pi (sqr r))))
                (area r)
            )
        ";

    let result = eval(program, &mut env).unwrap();
    assert_eq!(
        result,
        Object::List(vec![
            Object::Bool(true),
            Object::Bool(true),
            Object::Bool(true),
            Object::Bool(true),
            Object::Integer((314 * 10 * 10) as i64)
        ])
    );
}

#[test]
fn same_program_in_two_fresh_environments_gives_the_same() {
    let program = "
            (
                (define fact (lambda (n) (if (< n 1) 1 (* n (fact (- n 1))))))
                (define half (/ (fact 5) 2.5))
                (fact 10)
                half
                (undefined 1)
            )
        ";
    let mut first = Env::new();
    let mut second = Env::new();
    let a = eval(program, &mut first);
    let b = eval(program, &mut second);
    assert_eq!(a, b);
    assert_eq!(a, Err("Unbound symbol: undefined".to_string()));
    assert_eq!(first.get("half"), second.get("half"));
    assert_eq!(first.get("half"), Some(Object::Float(float(48.0))));
    assert_eq!(first.get("fact"), second.get("fact"));
}

#[test]
fn product_out_of_range_is_an_error() {
    assert_eq!(error("(* 9223372036854775807 2)"), "Integer overflow");
    assert_eq!(error("(* -9223372036854775808 -1)"), "Integer overflow");
    assert_eq!(error("(* 4294967296 2147483648)"), "Integer overflow");
    assert_eq!(
        fresh("(* 4294967296 2147483647)"),
        Ok(Object::Integer(9223372032559808512))
    );
    assert_eq!(
        fresh("(* -4294967296 2147483648)"),
        Ok(Object::Integer(i64::MIN))
    );
    assert_eq!(
        binop(Operator::Mul, Object::Integer(i64::MAX), Object::Integer(i64::MAX)),
        Control::Raise("Integer overflow".to_string())
    );
    // The error ends the whole program at once.
    assert_eq!(
        error("((define x 3037000500) (* x x) (define y 1))"),
        "Integer overflow"
    );
}

#[test]
fn integer_arithmetic() {
    assert_eq!(fresh("(+ 40 2)"), Ok(Object::Integer(42)));
    assert_eq!(fresh("(- 40 2)"), Ok(Object::Integer(38)));
    assert_eq!(fresh("(- 2 40)"), Ok(Object::Integer(-38)));
    assert_eq!(fresh("(* -6 7)"), Ok(Object::Integer(-42)));
    assert_eq!(fresh("(/ 7 2)"), Ok(Object::Integer(3)));
    assert_eq!(fresh("(/ -7 2)"), Ok(Object::Integer(-3)));
    assert_eq!(fresh("(/ 7 -2)"), Ok(Object::Integer(-3)));
    assert_eq!(fresh("(/ -7 -2)"), Ok(Object::Integer(3)));
    assert_eq!(fresh("(/ 0 5)"), Ok(Object::Integer(0)));
    assert_eq!(fresh("(/ -9223372036854775808 1)"), Ok(Object::Integer(i64::MIN)));
    assert_eq!(fresh("(/ 9223372036854775807 -1)"), Ok(Object::Integer(-i64::MAX)));
}

#[test]
fn sums_and_differences_out_of_range_are_errors() {
    assert_eq!(error("(+ 9223372036854775807 1)"), "Integer overflow");
    assert_eq!(error("(- -9223372036854775808 1)"), "Integer overflow");
    assert_eq!(
        error("(+ -9223372036854775808 -9223372036854775808)"),
        "Integer overflow"
    );
    assert_eq!(error("(- 0 -9223372036854775808)"), "Integer overflow");
    assert_eq!(
        fresh("(+ 9223372036854775806 1)"),
        Ok(Object::Integer(i64::MAX))
    );
    assert_eq!(
        fresh("(- -9223372036854775807 1)"),
        Ok(Object::Integer(i64::MIN))
    );
    assert_eq!(
        fresh("(+ 9223372036854775807 -9223372036854775808)"),
        Ok(Object::Integer(-1))
    );
}

#[test]
fn operators_say_where_they_have_a_result() {
    let int = Object::Integer;
    assert!(is_defined(Operator::Add, &int(1), &int(2)));
    assert!(is_defined(Operator::Add, &int(i64::MAX), &int(0)));
    assert!(!is_defined(Operator::Add, &int(i64::MAX), &int(1)));
    assert!(!is_defined(Operator::Add, &int(i64::MIN), &int(-1)));
    assert!(is_defined(Operator::Sub, &int(i64::MIN), &int(0)));
    assert!(!is_defined(Operator::Sub, &int(i64::MIN), &int(1)));
    assert!(!is_defined(Operator::Sub, &int(0), &int(i64::MIN)));
    assert!(is_defined(Operator::Div, &int(7), &int(2)));
    assert!(!is_defined(Operator::Div, &int(7), &int(0)));
    assert!(!is_defined(Operator::Div, &int(i64::MIN), &int(-1)));
    assert!(is_defined(Operator::Div, &int(i64::MIN), &int(1)));
    assert!(is_defined(Operator::Div, &int(i64::MAX), &int(-1)));
    // A product always has one, which may be the error.
    assert!(is_defined(Operator::Mul, &int(i64::MAX), &int(i64::MAX)));
    assert!(is_defined(Operator::Less, &int(i64::MAX), &int(i64::MIN)));
    // And so has everything that is not on two integers.
    assert!(is_defined(Operator::Div, &Object::Float(float(1.0)), &int(0)));
    assert!(is_defined(Operator::Add, &Object::Bool(true), &int(i64::MAX)));
}

#[test]
fn division_without_a_quotient_is_an_error() {
    assert_eq!(error("(/ 1 0)"), "Division by zero");
    assert_eq!(error("(/ 0 0)"), "Division by zero");
    assert_eq!(error("(/ -9223372036854775808 -1)"), "Integer overflow");
}

#[test]
fn integer_comparisons() {
    assert_eq!(fresh("(< 1 2)"), Ok(Object::Bool(true)));
    assert_eq!(fresh("(< 2 2)"), Ok(Object::Bool(false)));
    assert_eq!(fresh("(> 1 2)"), Ok(Object::Bool(false)));
    assert_eq!(fresh("(> 3 2)"), Ok(Object::Bool(true)));
    assert_eq!(fresh("(= 2 2)"), Ok(Object::Bool(true)));
    assert_eq!(fresh("(= 2 3)"), Ok(Object::Bool(false)));
    assert_eq!(fresh("(!= 2 2)"), Ok(Object::Bool(false)));
    assert_eq!(fresh("(!= 2 3)"), Ok(Object::Bool(true)));
}

#[test]
fn floats_go_through_the_host() {
    assert_eq!(fresh("(+ 1.5 2)"), Ok(Object::Float(float(3.5))));
    assert_eq!(fresh("(+ 2 1.5)"), Ok(Object::Float(float(3.5))));
    assert_eq!(fresh("(- 1.5 0.25)"), Ok(Object::Float(float(1.25))));
    assert_eq!(fresh("(* 2 0.5)"), Ok(Object::Float(float(1.0))));
    assert_eq!(fresh("(/ 1 4.0)"), Ok(Object::Float(float(0.25))));
    assert_eq!(fresh("(/ 1.0 0)"), Ok(Object::Float(float(f64::INFINITY))));
    assert_eq!(fresh("(< 1 1.5)"), Ok(Object::Bool(true)));
    assert_eq!(fresh("(> 1 1.5)"), Ok(Object::Bool(false)));
    assert_eq!(fresh("(= 2 2.0)"), Ok(Object::Bool(true)));
    assert_eq!(fresh("(!= 2.5 2.5)"), Ok(Object::Bool(false)));
    assert_eq!(
        fresh("(if (< 0.5 (* 0.5 3)) (+ 1 (* 2 1.25)) 0)"),
        Ok(Object::Float(float(3.5)))
    );
}

#[test]
fn machine_names_the_float_operation_and_waits() {
    let mut machine = Machine::start(
        Object::List(vec![
            Object::Symbol("-".to_string()),
            Object::Integer(1),
            Object::Float(float(0.5)),
        ]),
        Env::new(),
    );
    let asked = Action::Compute(Operator::Sub, Object::Integer(1), Object::Float(float(0.5)));
    let mut action = machine.step();
    while action == Action::Continue {
        action = machine.step();
    }
    assert_eq!(action, asked);
    // It keeps asking until it is answered, and takes the answer as it is.
    assert_eq!(machine.step(), asked);
    assert_eq!(machine.run(10), asked);
    machine.answer(Object::Float(float(0.5)));
    assert_eq!(machine.step(), Action::Finish(Ok(Object::Float(float(0.5)))));
    assert_eq!(machine.step(), Action::Idle);
    // An answer that nothing waits for is dropped.
    machine.answer(Object::Integer(1));
    assert_eq!(machine.step(), Action::Idle);
}

#[test]
fn binop_on_values() {
    assert_eq!(
        binop(Operator::Add, Object::Integer(1), Object::Integer(2)),
        Control::Return(Object::Integer(3))
    );
    assert_eq!(
        binop(Operator::Less, Object::Integer(1), Object::Integer(2)),
        Control::Return(Object::Bool(true))
    );
    assert_eq!(
        binop(Operator::Div, Object::Float(float(1.0)), Object::Integer(2)),
        Control::Await(Operator::Div, Object::Float(float(1.0)), Object::Integer(2))
    );
    assert_eq!(
        binop(Operator::Equal, Object::Float(float(1.0)), Object::Float(float(2.0))),
        Control::Await(Operator::Equal, Object::Float(float(1.0)), Object::Float(float(2.0)))
    );
    assert_eq!(
        binop(Operator::NotEqual, Object::Bool(true), Object::Float(float(2.5))),
        Control::Raise(
            "Unable to apply binary operation on non-numeric values: (!= true 2.5)".to_string()
        )
    );
}

#[test]
fn operands_must_be_numbers() {
    assert_eq!(
        error("(+ 1 \"a\")"),
        "Unable to apply binary operation on non-numeric values: (+ 1 \"a\")"
    );
    assert_eq!(
        error("(< (1 2) 1.5)"),
        "Unable to apply binary operation on non-numeric values: (< (1 2) 1.5)"
    );
    assert_eq!(
        error("(* (< 1 2) (lambda (a b) (a)))"),
        "Unable to apply binary operation on non-numeric values: (* true lambda (a, b))"
    );
    assert_eq!(
        error("((define s \"x\") (- s s))"),
        "Unable to apply binary operation on non-numeric values: (- \"x\" \"x\")"
    );
}

#[test]
fn operands_are_evaluated_left_first() {
    assert_eq!(error("(+ (a) (b))"), "Unbound symbol: a");
    assert_eq!(error("(+ 1 (b))"), "Unbound symbol: b");
    let mut env = Env::new();
    assert_eq!(
        eval("(+ (define x 1) (y))", &mut env),
        Err("Unbound symbol: y".to_string())
    );
    assert_eq!(env.get("x"), Some(Object::Integer(1)));
}

#[test]
fn special_forms_check_their_shape() {
    assert_eq!(error("(+ 1)"), "Operator + expects 2 operands, but was given 1");
    assert_eq!(error("(!= 1 2 3)"), "Operator != expects 2 operands, but was given 3");
    assert_eq!(error("(<)"), "Operator < expects 2 operands, but was given 0");
    assert_eq!(error("(define x)"), "define expects 2 arguments, but was given 1");
    assert_eq!(error("(define x 1 2)"), "define expects 2 arguments, but was given 3");
    assert_eq!(error("(define 1 2)"), "define expects a symbol, but was given 1");
    assert_eq!(error("(define (f) 2)"), "define expects a symbol, but was given (f)");
    assert_eq!(error("(if)"), "if expects 2 or 3 arguments, but was given 0");
    assert_eq!(error("(if 1)"), "if expects 2 or 3 arguments, but was given 1");
    assert_eq!(error("(if 1 2 3 4)"), "if expects 2 or 3 arguments, but was given 4");
    assert_eq!(error("(lambda (x))"), "lambda expects 2 arguments, but was given 1");
    assert_eq!(error("(lambda (x 1.5 y) (x))"), "Invalid lambda parameter: 1.5");
    assert_eq!(error("(lambda (\"a\" 2) (x))"), "Invalid lambda parameter: \"a\"");
    assert_eq!(error("(lambda x (x))"), "Invalid lambda parameter: x");
    assert_eq!(error("(lambda (x) x)"), "Invalid lambda body: x");
    assert_eq!(error("(lambda (1) x)"), "Invalid lambda body: x");
}

#[test]
fn empty_list_is_an_error() {
    assert_eq!(error("()"), "Empty list");
    assert_eq!(error("(1 ())"), "Empty list");
    assert_eq!(
        error("((define f (lambda () ())) (f))"),
        "Empty list"
    );
}

#[test]
fn parse_errors_come_out_of_the_first_step() {
    assert_eq!(error("(1"), "Parse error: Encountered an unexpected EOF !");
    assert_eq!(error("1"), "Parse error: Excepted Left Paren, found Some(Integer(1))");
    assert_eq!(
        error("(a\"b\")"),
        "Parse error: Unexpected character \" (line 1, column 3)"
    );
    assert_eq!(error(""), "Parse error: Excepted Left Paren, found None");
}

#[test]
fn atoms_evaluate_to_themselves() {
    assert_eq!(
        fresh("(1 2.5 \"s\" (< 1 2))"),
        Ok(Object::List(vec![
            Object::Integer(1),
            Object::Float(float(2.5)),
            Object::String("s".to_string()),
            Object::Bool(true),
        ]))
    );
}

#[test]
fn symbols_evaluate_to_what_they_are_bound_to() {
    assert_eq!(
        fresh("((define x 5) x (1 x))"),
        Ok(Object::List(vec![
            Object::Bool(true),
            Object::Integer(5),
            Object::List(vec![Object::Integer(1), Object::Integer(5)]),
        ]))
    );
    assert_eq!(error("(1 x)"), "Unbound symbol x");
    assert_eq!(error("(x)"), "Unbound symbol: x");
}

#[test]
fn lambda_as_a_term_is_not_evaluable() {
    let lambda = Object::Lambda(vec!["a".to_string()], vec![Object::Symbol("a".to_string())]);
    let mut machine = Machine::start(lambda, Env::new());
    assert_eq!(drive(&mut machine), Err("Lambda not yet evaluable".to_string()));
    // Bound to a name, it is a value like any other.
    assert_eq!(
        fresh("((define id (lambda (a) (a))) (1 id))"),
        Ok(Object::List(vec![
            Object::Bool(true),
            Object::List(vec![
                Object::Integer(1),
                Object::Lambda(vec!["a".to_string()], vec![Object::Symbol("a".to_string())]),
            ]),
        ]))
    );
}

#[test]
fn define_binds_in_the_current_scope_and_is_true() {
    let mut env = Env::new();
    assert_eq!(eval("(define x 1)", &mut env), Ok(Object::Bool(true)));
    assert_eq!(env.get("x"), Some(Object::Integer(1)));
    assert_eq!(eval("(define x (+ x 1))", &mut env), Ok(Object::Bool(true)));
    assert_eq!(env.get("x"), Some(Object::Integer(2)));
    // Inside a procedure it binds in the scope of the call only.
    assert_eq!(
        eval(
            "((define f (lambda (a) ((define x 100) (define a 7) (+ x a)))) (f 1) x)",
            &mut env
        ),
        Ok(Object::List(vec![
            Object::Bool(true),
            Object::List(vec![Object::Bool(true), Object::Bool(true), Object::Integer(107)]),
            Object::Integer(2),
        ]))
    );
    assert_eq!(env.get("a"), None);
}

#[test]
fn environment_lasts_across_programs() {
    let mut env = Env::new();
    eval("(define sqr (lambda (r) (* r r)))", &mut env).unwrap();
    eval("(define n 12)", &mut env).unwrap();
    assert_eq!(eval("(sqr n)", &mut env), Ok(Object::Integer(144)));
}

#[test]
fn what_was_defined_before_an_error_stays() {
    let mut env = Env::new();
    assert_eq!(
        eval("((define a 1) (define b (nothing)) (define c 3))", &mut env),
        Err("Unbound symbol: nothing".to_string())
    );
    assert_eq!(env.get("a"), Some(Object::Integer(1)));
    assert_eq!(env.get("b"), None);
    assert_eq!(env.get("c"), None);
}

#[test]
fn an_error_inside_calls_closes_their_scopes() {
    let mut env = Env::new();
    eval("(define x 1)", &mut env).unwrap();
    eval("(define inner (lambda (x) (* x (oops))))", &mut env).unwrap();
    eval("(define outer (lambda (x) (inner (+ x 1))))", &mut env).unwrap();
    assert_eq!(eval("(outer 10)", &mut env), Err("Unbound symbol: oops".to_string()));
    assert_eq!(env.get("x"), Some(Object::Integer(1)));
    assert_eq!(eval("(define y 2)", &mut env), Ok(Object::Bool(true)));
    assert_eq!(eval("(+ x y)", &mut env), Ok(Object::Integer(3)));
}

#[test]
fn if_takes_everything_but_false_as_true() {
    assert_eq!(fresh("(if (< 1 2) 10 20)"), Ok(Object::Integer(10)));
    assert_eq!(fresh("(if (> 1 2) 10 20)"), Ok(Object::Integer(20)));
    assert_eq!(fresh("(if 0 10 20)"), Ok(Object::Integer(10)));
    assert_eq!(fresh("(if \"\" 10 20)"), Ok(Object::Integer(10)));
    assert_eq!(fresh("(if (1 2) 10 20)"), Ok(Object::Integer(10)));
    assert_eq!(fresh("(if (= 1 1) 10)"), Ok(Object::Integer(10)));
    assert_eq!(fresh("(if (= 1 2) 10)"), Ok(Object::Bool(false)));
    assert!(eval_condition(&Object::Bool(true)));
    assert!(!eval_condition(&Object::Bool(false)));
    assert!(eval_condition(&Object::Integer(0)));
    assert!(eval_condition(&Object::List(vec![])));
}

#[test]
fn if_evaluates_one_branch_only() {
    assert_eq!(fresh("(if (< 1 2) 10 (oops))"), Ok(Object::Integer(10)));
    assert_eq!(fresh("(if (> 1 2) (oops) 20)"), Ok(Object::Integer(20)));
    assert_eq!(error("(if (oops) 1 2)"), "Unbound symbol: oops");
    let mut env = Env::new();
    eval("(if (< 1 2) (define a 1) (define b 2))", &mut env).unwrap();
    assert_eq!(env.get("a"), Some(Object::Integer(1)));
    assert_eq!(env.get("b"), None);
}

#[test]
fn lambda_keeps_parameters_and_unwrapped_body() {
    assert_eq!(
        fresh("(lambda (a b) (+ a b))"),
        Ok(Object::Lambda(
            vec!["a".to_string(), "b".to_string()],
            vec![
                Object::Symbol("+".to_string()),
                Object::Symbol("a".to_string()),
                Object::Symbol("b".to_string()),
            ],
        ))
    );
    // The body is not evaluated when the procedure is made.
    assert_eq!(
        fresh("(lambda () (oops))"),
        Ok(Object::Lambda(vec![], vec![Object::Symbol("oops".to_string())]))
    );
}

#[test]
fn calls_check_the_procedure_and_the_number_of_arguments() {
    assert_eq!(error("(f 1)"), "Unbound symbol: f");
    assert_eq!(
        error("((define f 5) (f 1))"),
        "Trying to evaluate non-function expression: f"
    );
    assert_eq!(
        error("((define f (lambda (a b) (+ a b))) (f 1))"),
        "Lambda expects 2 parameters, but was given 1"
    );
    assert_eq!(
        error("((define f (lambda () (+ 1 2))) (f 1 2 3))"),
        "Lambda expects 0 parameters, but was given 3"
    );
    // The number is checked before any argument is evaluated.
    assert_eq!(
        error("((define f (lambda (a) (+ a 1))) (f (oops) 2))"),
        "Lambda expects 1 parameters, but was given 2"
    );
    assert_eq!(
        fresh("((define f (lambda () (+ 1 2))) (f))"),
        Ok(Object::List(vec![Object::Bool(true), Object::Integer(3)]))
    );
}

#[test]
fn arguments_are_evaluated_in_order_in_the_callers_scope() {
    let mut env = Env::new();
    assert_eq!(
        eval(
            "((define f (lambda (a b c) (+ a (+ b c)))) (f (define p 1) (define q 2) (oops)))",
            &mut env
        ),
        Err("Unbound symbol: oops".to_string())
    );
    assert_eq!(env.get("p"), Some(Object::Integer(1)));
    assert_eq!(env.get("q"), Some(Object::Integer(2)));
    assert_eq!(
        fresh("((define sub (lambda (a b) (- a b))) (sub 10 3))"),
        Ok(Object::List(vec![Object::Bool(true), Object::Integer(7)]))
    );
    // An argument does not see the parameters bound before it.
    assert_eq!(
        error("((define f (lambda (a b) (+ a b))) (f 1 (+ a 1)))"),
        "Unbound symbol a"
    );
}

#[test]
fn later_parameter_of_the_same_name_wins() {
    assert_eq!(
        fresh("((define f (lambda (a a) (+ a 0))) (f 1 2))"),
        Ok(Object::List(vec![Object::Bool(true), Object::Integer(2)]))
    );
}

#[test]
fn a_call_sees_the_scope_of_its_caller() {
    // `show` is made where no `n` is bound, and called from inside `with`,
    // whose parameter it then sees.
    assert_eq!(
        fresh("((define show (lambda () (+ n 0))) (define with (lambda (n) (show))) (with 5))"),
        Ok(Object::List(vec![Object::Bool(true), Object::Bool(true), Object::Integer(5)]))
    );
    assert_eq!(
        error("((define show (lambda () (+ n 0))) (show))"),
        "Unbound symbol n"
    );
}

#[test]
fn sequences_evaluate_every_element_in_order() {
    assert_eq!(
        fresh("((+ 1 2) (* 2 3) ((- 1 1) 7))"),
        Ok(Object::List(vec![
            Object::Integer(3),
            Object::Integer(6),
            Object::List(vec![Object::Integer(0), Object::Integer(7)]),
        ]))
    );
    assert_eq!(fresh("(7)"), Ok(Object::List(vec![Object::Integer(7)])));
    assert_eq!(error("(1 (a) (b))"), "Unbound symbol: a");
}

#[test]
fn deep_recursion_needs_no_deep_stack() {
    let mut env = Env::new();
    eval(
        "(define count (lambda (n) (if (< n 1) 0 (+ 1 (count (- n 1))))))",
        &mut env,
    )
    .unwrap();
    assert_eq!(eval("(count 20000)", &mut env), Ok(Object::Integer(20000)));
}

#[test]
fn run_stops_when_fuel_is_spent() {
    let mut env = Env::new();
    eval("(define forever (lambda () (forever)))", &mut env).unwrap();
    let mut machine = r_scheme::eval::eval(&tokens("(forever)"), env);
    assert_eq!(machine.run(0), Action::Continue);
    assert_eq!(machine.run(1000), Action::Continue);
    assert_eq!(machine.run(1000), Action::Continue);
    let env = machine.into_env();
    assert_eq!(env.get("forever").is_some(), true);
}

#[test]
fn run_ends_with_the_result() {
    let mut machine = r_scheme::eval::eval(&tokens("((define x 2) (* x 21))"), Env::new());
    assert_eq!(
        machine.run(1_000),
        Action::Finish(Ok(Object::List(vec![Object::Bool(true), Object::Integer(42)])))
    );
    assert_eq!(machine.run(1_000), Action::Idle);
    assert_eq!(machine.into_env().get("x"), Some(Object::Integer(2)));
}

#[test]
fn idle_machine_does_nothing() {
    let mut env = Env::new();
    env.set("x", Object::Integer(1));
    let mut machine = Machine::new(env);
    assert_eq!(machine.step(), Action::Idle);
    assert_eq!(machine.run(5), Action::Idle);
    assert_eq!(machine.into_env().get("x"), Some(Object::Integer(1)));
}

/// Evaluates `program` with a host that answers every operation on floats
/// with `reply`.
fn answered_with(program: &str, reply: Object) -> Result<Object, String> {
    let mut machine = r_scheme::eval::eval(&tokens(program), Env::new());
    loop {
        match machine.step() {
            Action::Continue => {}
            Action::Compute(_, _, _) => machine.answer(reply.clone()),
            Action::Finish(result) => return result,
            Action::Idle => panic!("the machine has nothing to do"),
        }
    }
}

#[test]
fn a_comparison_is_a_boolean_or_an_error() {
    assert_eq!(answered_with("(< 1 2.5)", Object::Bool(true)), Ok(Object::Bool(true)));
    assert_eq!(answered_with("(= 1 2.5)", Object::Bool(false)), Ok(Object::Bool(false)));
    assert_eq!(
        answered_with("(< 1 2.5)", Object::String("yes".to_string())),
        Err("Operator < was answered with \"yes\"".to_string())
    );
    assert_eq!(
        answered_with("(!= 1 2.5)", Object::Float(float(1.0))),
        Err("Operator != was answered with 1".to_string())
    );
    assert_eq!(
        answered_with("(> 1.5 2)", Object::Integer(1)),
        Err("Operator > was answered with 1".to_string())
    );
    assert_eq!(
        answered_with("((define x 1) (if (= x 1.0) 10 20))", Object::List(vec![])),
        Err("Operator = was answered with ()".to_string())
    );
}

#[test]
fn arithmetic_on_floats_is_a_float_or_an_error() {
    assert_eq!(
        answered_with("(+ 1 2.5)", Object::Float(float(3.5))),
        Ok(Object::Float(float(3.5)))
    );
    assert_eq!(
        answered_with("(+ 1 2.5)", Object::Bool(true)),
        Err("Operator + was answered with true".to_string())
    );
    assert_eq!(
        answered_with("(/ 1.0 2)", Object::Integer(0)),
        Err("Operator / was answered with 0".to_string())
    );
    assert_eq!(
        answered_with("(* 2.0 2.0)", Object::Symbol("four".to_string())),
        Err("Operator * was answered with four".to_string())
    );
    // The error ends the program like any other.
    assert_eq!(
        answered_with("((define a 1) (- a 0.5) (define b 2))", Object::Bool(false)),
        Err("Operator - was answered with false".to_string())
    );
}
