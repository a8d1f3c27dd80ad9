//! What an expression means, said directly, and the proof that the machine
//! computes it.
//!
//! `evaluate` is the evaluator as a recursive function: it takes an
//! expression and an environment and gives a value or an error, and the
//! environment after. It needs a bound on how deep lists and calls may nest,
//! since a program may recurse for ever; within the bound it says what the
//! program evaluates to. The machine of `eval` reaches the same result in the
//! same environment, without a bound and without recursion.

use crate::env::{bind, lookup};
use crate::eval::{
    answers, apply, arity_error, bind_all, defined, enter_call, is_comparison, lambda_value, leave,
    operator_named, operator_text, settled, start, undefined, wrong_answer, ActionView,
    ControlView, FrameView, MachineView, Operator,
};
use crate::object::{render, Value};
use crate::text::decimal;
use vstd::prelude::*;

verus! {

/// The outcome of an evaluation, and the environment it leaves.
pub ghost struct Evaluated {
    pub result: Result<Value, Seq<char>>,
    pub env: Seq<Map<Seq<char>, Value>>,
}

pub open spec fn fails(message: Seq<char>, env: Seq<Map<Seq<char>, Value>>) -> Option<Evaluated> {
    Some(Evaluated { result: Err(message), env })
}

pub open spec fn gives(v: Value, env: Seq<Map<Seq<char>, Value>>) -> Option<Evaluated> {
    Some(Evaluated { result: Ok(v), env })
}

/// An operator applied to two values, where `host` says what the operations
/// on floats give. What the host says counts only where it can be the
/// operator's result: a boolean for a comparison, a float for arithmetic.
pub open spec fn operate(
    op: Operator,
    left: Value,
    right: Value,
    host: spec_fn(Operator, Value, Value) -> Value,
) -> Result<Value, Seq<char>> {
    if !defined(op, left, right) {
        Err(undefined(op, right))
    } else {
        match apply(op, left, right) {
            ControlView::Return(v) => Ok(v),
            ControlView::Raise(message) => Err(message),
            _ => if answers(op, host(op, left, right)) {
                Ok(host(op, left, right))
            } else {
                Err(wrong_answer(op, host(op, left, right)))
            },
        }
    }
}

/// A comparison gives a boolean or an error, whatever its operands are and
/// whatever the host says.
pub proof fn lemma_comparison_is_boolean(
    op: Operator,
    left: Value,
    right: Value,
    host: spec_fn(Operator, Value, Value) -> Value,
)
    requires
        is_comparison(op),
    ensures
        operate(op, left, right, host) matches Ok(v) ==> v is Bool,
{
}

/// Arithmetic gives a number or an error: an integer on two integers, and
/// a float where a float is among the operands.
pub proof fn lemma_arithmetic_is_number(
    op: Operator,
    left: Value,
    right: Value,
    host: spec_fn(Operator, Value, Value) -> Value,
)
    requires
        !is_comparison(op),
    ensures
        operate(op, left, right, host) matches Ok(v) ==> (if left is Integer && right is Integer {
            v is Integer
        } else {
            v is Float
        }),
{
}

/// The value of an expression in an environment, where lists and calls nest
/// at most `depth` deep. `None` where they nest deeper.
pub open spec fn evaluate(
    v: Value,
    env: Seq<Map<Seq<char>, Value>>,
    host: spec_fn(Operator, Value, Value) -> Value,
    depth: nat,
) -> Option<Evaluated>
    decreases depth, 0nat, 0nat,
{
    match v {
        Value::Symbol(name) => match lookup(env, name) {
            Some(value) => gives(value, env),
            None => fails("Unbound symbol "@ + name, env),
        },
        Value::Lambda(_, _) => fails("Lambda not yet evaluable"@, env),
        Value::List(items) => if depth == 0 {
            None
        } else {
            evaluate_list(items, env, host, (depth - 1) as nat)
        },
        _ => gives(v, env),
    }
}

/// The values of `items[from..]`, evaluated from left to right, after
/// `done`. The first error ends the evaluation.
pub open spec fn evaluate_each(
    items: Seq<Value>,
    from: nat,
    done: Seq<Value>,
    env: Seq<Map<Seq<char>, Value>>,
    host: spec_fn(Operator, Value, Value) -> Value,
    depth: nat,
) -> Option<(Result<Seq<Value>, Seq<char>>, Seq<Map<Seq<char>, Value>>)>
    decreases depth, 1nat, items.len() - from,
{
    if from >= items.len() {
        Some((Ok(done), env))
    } else {
        match evaluate(items[from as int], env, host, depth) {
            None => None,
            Some(e) => match e.result {
                Err(message) => Some((Err(message), e.env)),
                Ok(value) => evaluate_each(items, from + 1, done.push(value), e.env, host, depth),
            },
        }
    }
}

/// The body of a procedure, evaluated in a new scope inside `env` where the
/// parameters are bound to the arguments. The scope is gone afterwards.
pub open spec fn evaluate_body(
    params: Seq<Seq<char>>,
    body: Seq<Value>,
    values: Seq<Value>,
    env: Seq<Map<Seq<char>, Value>>,
    host: spec_fn(Operator, Value, Value) -> Value,
    depth: nat,
) -> Option<Evaluated>
    decreases depth, 1nat, 0nat,
{
    match evaluate(Value::List(body), enter_call(env, params, values), host, depth) {
        None => None,
        Some(e) => Some(Evaluated { result: e.result, env: leave(e.env) }),
    }
}

/// A call whose arguments `items[from..]` are still to be evaluated, after
/// `done`: they are evaluated in `env`, and then the body in a scope inside
/// what `env` has become.
pub open spec fn evaluate_arguments(
    params: Seq<Seq<char>>,
    body: Seq<Value>,
    items: Seq<Value>,
    from: nat,
    done: Seq<Value>,
    env: Seq<Map<Seq<char>, Value>>,
    host: spec_fn(Operator, Value, Value) -> Value,
    depth: nat,
) -> Option<Evaluated>
    decreases depth, 2nat, 0nat,
{
    match evaluate_each(items, from, done, env, host, depth) {
        None => None,
        Some((Err(message), after)) => fails(message, after),
        Some((Ok(values), after)) => evaluate_body(params, body, values, after, host, depth),
    }
}

/// `(define <symbol> <expr>)`: the value of the expression is bound to the
/// symbol in the current scope, and the form is true.
pub open spec fn evaluate_define(
    items: Seq<Value>,
    env: Seq<Map<Seq<char>, Value>>,
    host: spec_fn(Operator, Value, Value) -> Value,
    depth: nat,
) -> Option<Evaluated>
    decreases depth, 2nat, 0nat,
{
    if items.len() != 3 {
        fails(arity_error("define"@, "2 arguments"@, items.len() - 1), env)
    } else {
        match items[1] {
            Value::Symbol(name) => match evaluate(items[2], env, host, depth) {
                None => None,
                Some(e) => match e.result {
                    Ok(value) => gives(Value::Bool(true), bind(e.env, name, value)),
                    Err(message) => fails(message, e.env),
                },
            },
            other => fails("define expects a symbol, but was given "@ + render(other), env),
        }
    }
}

/// `(<op> <left> <right>)`: the operator applied to the values of the two
/// operands, the left one evaluated first.
pub open spec fn evaluate_operation(
    op: Operator,
    items: Seq<Value>,
    env: Seq<Map<Seq<char>, Value>>,
    host: spec_fn(Operator, Value, Value) -> Value,
    depth: nat,
) -> Option<Evaluated>
    decreases depth, 2nat, 0nat,
{
    if items.len() != 3 {
        fails(arity_error("Operator "@ + operator_text(op), "2 operands"@, items.len() - 1), env)
    } else {
        match evaluate(items[1], env, host, depth) {
            None => None,
            Some(l) => match l.result {
                Err(message) => fails(message, l.env),
                Ok(left) => match evaluate(items[2], l.env, host, depth) {
                    None => None,
                    Some(r) => match r.result {
                        Err(message) => fails(message, r.env),
                        Ok(right) => Some(
                            Evaluated { result: operate(op, left, right, host), env: r.env },
                        ),
                    },
                },
            },
        }
    }
}

/// `(if <cond> <then>)` and `(if <cond> <then> <else>)`: every value of the
/// condition but false chooses `<then>`; where there is no `<else>` to
/// choose, the form is false.
pub open spec fn evaluate_condition(
    items: Seq<Value>,
    env: Seq<Map<Seq<char>, Value>>,
    host: spec_fn(Operator, Value, Value) -> Value,
    depth: nat,
) -> Option<Evaluated>
    decreases depth, 2nat, 0nat,
{
    if items.len() != 3 && items.len() != 4 {
        fails(arity_error("if"@, "2 or 3 arguments"@, items.len() - 1), env)
    } else {
        match evaluate(items[1], env, host, depth) {
            None => None,
            Some(c) => match c.result {
                Err(message) => fails(message, c.env),
                Ok(truth) => if truth != Value::Bool(false) {
                    evaluate(items[2], c.env, host, depth)
                } else if items.len() == 4 {
                    evaluate(items[3], c.env, host, depth)
                } else {
                    gives(Value::Bool(false), c.env)
                },
            },
        }
    }
}

/// `(<name> <arg>…)`: the procedure that `name` is bound to, applied to the
/// values of the arguments. These are evaluated in the caller's scope, and
/// the scope of the call lies inside the caller's.
pub open spec fn evaluate_call(
    name: Seq<char>,
    items: Seq<Value>,
    env: Seq<Map<Seq<char>, Value>>,
    host: spec_fn(Operator, Value, Value) -> Value,
    depth: nat,
) -> Option<Evaluated>
    decreases depth, 2nat, 1nat,
{
    match lookup(env, name) {
        None => fails("Unbound symbol: "@ + name, env),
        Some(Value::Lambda(params, body)) => if params.len() != items.len() - 1 {
            fails(
                arity_error("Lambda"@, decimal(params.len()) + " parameters"@, items.len() - 1),
                env,
            )
        } else {
            evaluate_arguments(params, body, items, 1, Seq::empty(), env, host, depth)
        },
        Some(_) => fails("Trying to evaluate non-function expression: "@ + name, env),
    }
}

/// A list: a special form or a call where it begins with a symbol, and else
/// the list of the values of its elements.
pub open spec fn evaluate_list(
    items: Seq<Value>,
    env: Seq<Map<Seq<char>, Value>>,
    host: spec_fn(Operator, Value, Value) -> Value,
    depth: nat,
) -> Option<Evaluated>
    decreases depth, 3nat, 0nat,
{
    if items.len() == 0 {
        fails("Empty list"@, env)
    } else {
        match items[0] {
            Value::Symbol(name) => if name == "define"@ {
                evaluate_define(items, env, host, depth)
            } else if operator_named(name) is Some {
                evaluate_operation(operator_named(name)->0, items, env, host, depth)
            } else if name == "if"@ {
                evaluate_condition(items, env, host, depth)
            } else if name == "lambda"@ {
                Some(Evaluated { result: lambda_value(items), env })
            } else {
                evaluate_call(name, items, env, host, depth)
            },
            _ => match evaluate_each(items, 0, Seq::empty(), env, host, depth) {
                None => None,
                Some((Err(message), after)) => fails(message, after),
                Some((Ok(values), after)) => gives(Value::List(values), after),
            },
        }
    }
}

/// One step of the machine, with the host's answer where the step asks for
/// one.
pub open spec fn next(m: MachineView, host: spec_fn(Operator, Value, Value) -> Value)
    -> MachineView {
    let stepped = m.step();
    match stepped.1 {
        ActionView::Compute(op, left, right) => stepped.0.answer(host(op, left, right)),
        _ => stepped.0,
    }
}

/// The machine after `n` steps.
pub open spec fn advance(
    m: MachineView,
    host: spec_fn(Operator, Value, Value) -> Value,
    n: nat,
) -> MachineView
    decreases n,
{
    if n == 0 {
        m
    } else {
        advance(next(m, host), host, (n - 1) as nat)
    }
}

/// Where the machine stands once the expression it was about to evaluate in
/// state `m` has been evaluated: the frames are those of `m`.
pub open spec fn reached(m: MachineView, e: Evaluated) -> MachineView {
    MachineView { env: e.env, frames: m.frames, control: settled(e.result) }
}

/// A sequence from its element `from` on, the next one last.
pub open spec fn rest_of(items: Seq<Value>, from: nat) -> Seq<Value> {
    items.subrange(from as int, items.len() as int).reverse()
}

proof fn lemma_advance_add(
    m: MachineView,
    host: spec_fn(Operator, Value, Value) -> Value,
    a: nat,
    b: nat,
)
    ensures
        advance(m, host, a + b) == advance(advance(m, host, a), host, b),
    decreases a,
{
    if a > 0 {
        lemma_advance_add(next(m, host), host, (a - 1) as nat, b);
    }
}

proof fn lemma_advance_one(m: MachineView, host: spec_fn(Operator, Value, Value) -> Value)
    ensures
        advance(m, host, 1) == next(m, host),
{
    assert(advance(next(m, host), host, 0) == next(m, host));
}

/// `a` steps, one more, and then `b`.
proof fn lemma_advance_through(
    m: MachineView,
    host: spec_fn(Operator, Value, Value) -> Value,
    a: nat,
    b: nat,
)
    ensures
        advance(m, host, a + 1 + b) == advance(next(advance(m, host, a), host), host, b),
{
    lemma_advance_add(m, host, a, 1 + b);
    lemma_advance_add(advance(m, host, a), host, 1, b);
    lemma_advance_one(advance(m, host, a), host);
}

proof fn lemma_rest_of(items: Seq<Value>, from: nat)
    requires
        from < items.len(),
    ensures
        rest_of(items, from).len() == items.len() - from,
        rest_of(items, from).last() == items[from as int],
        rest_of(items, from).drop_last() == rest_of(items, from + 1),
{
    let part = items.subrange(from as int, items.len() as int);
    assert(part.reverse().len() == part.len());
    assert(part.reverse().last() == part[0]);
    let next_part = items.subrange(from as int + 1, items.len() as int);
    assert(part.reverse().drop_last() =~= next_part.reverse());
}

proof fn lemma_evaluate(
    m: MachineView,
    v: Value,
    host: spec_fn(Operator, Value, Value) -> Value,
    depth: nat,
) -> (n: nat)
    requires
        m.control == ControlView::Eval(v),
        evaluate(v, m.env, host, depth) is Some,
    ensures
        advance(m, host, n) == reached(m, evaluate(v, m.env, host, depth)->0),
    decreases depth, 0nat, 0nat,
{
    lemma_advance_one(m, host);
    assert(next(m, host) == m.eval(v));
    match v {
        Value::List(items) => {
            let k = lemma_list(m, items, host, (depth - 1) as nat);
            lemma_advance_add(m, host, 1, k);
            1 + k
        },
        _ => 1,
    }
}

proof fn lemma_list(
    m: MachineView,
    items: Seq<Value>,
    host: spec_fn(Operator, Value, Value) -> Value,
    depth: nat,
) -> (n: nat)
    requires
        evaluate_list(items, m.env, host, depth) is Some,
    ensures
        advance(m.list(items), host, n) == reached(m, evaluate_list(items, m.env, host, depth)->0),
    decreases depth, 4nat, 0nat,
{
    if items.len() == 0 {
        0
    } else {
        match items[0] {
            Value::Symbol(name) => {
                if name == "define"@ {
                    lemma_define(m, items, host, depth)
                } else if operator_named(name) is Some {
                    lemma_operation(m, operator_named(name)->0, items, host, depth)
                } else if name == "if"@ {
                    lemma_condition(m, items, host, depth)
                } else if name == "lambda"@ {
                    0
                } else {
                    lemma_call(m, name, items, host, depth)
                }
            },
            _ => {
                lemma_rest_of(items, 0);
                assert(items.subrange(1, items.len() as int).reverse() == rest_of(items, 1));
                lemma_sequence(m, items, 0, Seq::empty(), m.env, host, depth)
            },
        }
    }
}

proof fn lemma_define(
    m: MachineView,
    items: Seq<Value>,
    host: spec_fn(Operator, Value, Value) -> Value,
    depth: nat,
) -> (n: nat)
    requires
        evaluate_define(items, m.env, host, depth) is Some,
    ensures
        advance(m.define(items), host, n) == reached(
            m,
            evaluate_define(items, m.env, host, depth)->0,
        ),
    decreases depth, 3nat, 0nat,
{
    if items.len() == 3 && items[1] is Symbol {
        let name = items[1]->Symbol_0;
        let s0 = m.define(items);
        let k = lemma_evaluate(s0, items[2], host, depth);
        let e = evaluate(items[2], m.env, host, depth)->0;
        let s1 = advance(s0, host, k);
        assert(s1.frames.last() == FrameView::Define { name });
        assert(s1.frames.drop_last() == m.frames);
        lemma_advance_through(s0, host, k, 0);
        k + 1
    } else {
        0
    }
}

proof fn lemma_operation(
    m: MachineView,
    op: Operator,
    items: Seq<Value>,
    host: spec_fn(Operator, Value, Value) -> Value,
    depth: nat,
) -> (n: nat)
    requires
        evaluate_operation(op, items, m.env, host, depth) is Some,
    ensures
        advance(m.operation(op, items), host, n) == reached(
            m,
            evaluate_operation(op, items, m.env, host, depth)->0,
        ),
    decreases depth, 3nat, 0nat,
{
    if items.len() != 3 {
        return 0;
    }
    let s0 = m.operation(op, items);
    let k1 = lemma_evaluate(s0, items[1], host, depth);
    let l = evaluate(items[1], m.env, host, depth)->0;
    let s1 = advance(s0, host, k1);
    assert(s1.frames.last() == FrameView::Left { op, right: items[2] });
    assert(s1.frames.drop_last() == m.frames);
    let s2 = next(s1, host);
    lemma_advance_through(s0, host, k1, 0);
    match l.result {
        Err(message) => k1 + 1,
        Ok(left) => {
            assert(s2 == MachineView {
                env: l.env,
                frames: m.frames.push(FrameView::Right { op, left }),
                control: ControlView::Eval(items[2]),
            });
            let k2 = lemma_evaluate(s2, items[2], host, depth);
            let r = evaluate(items[2], l.env, host, depth)->0;
            let s3 = advance(s2, host, k2);
            assert(s3.frames.last() == FrameView::Right { op, left });
            assert(s3.frames.drop_last() == m.frames);
            let s4 = next(s3, host);
            lemma_advance_through(s0, host, k1, k2);
            lemma_advance_through(s0, host, k1 + 1 + k2, 0);
            match r.result {
                Err(message) => k1 + 1 + k2 + 1,
                Ok(right) => {
                    assert(s4 == MachineView {
                        env: r.env,
                        frames: m.frames,
                        control: if defined(op, left, right) {
                            apply(op, left, right)
                        } else {
                            ControlView::Raise(undefined(op, right))
                        },
                    });
                    if defined(op, left, right) && apply(op, left, right) is Await {
                        lemma_advance_through(s0, host, k1 + 1 + k2 + 1, 0);
                        k1 + 1 + k2 + 1 + 1
                    } else {
                        k1 + 1 + k2 + 1
                    }
                },
            }
        },
    }
}

proof fn lemma_condition(
    m: MachineView,
    items: Seq<Value>,
    host: spec_fn(Operator, Value, Value) -> Value,
    depth: nat,
) -> (n: nat)
    requires
        evaluate_condition(items, m.env, host, depth) is Some,
    ensures
        advance(m.condition(items), host, n) == reached(
            m,
            evaluate_condition(items, m.env, host, depth)->0,
        ),
    decreases depth, 3nat, 0nat,
{
    if items.len() != 3 && items.len() != 4 {
        return 0;
    }
    let s0 = m.condition(items);
    let k1 = lemma_evaluate(s0, items[1], host, depth);
    let c = evaluate(items[1], m.env, host, depth)->0;
    let s1 = advance(s0, host, k1);
    assert(s1.frames.last() is Branch);
    assert(s1.frames.drop_last() == m.frames);
    let s2 = next(s1, host);
    lemma_advance_through(s0, host, k1, 0);
    match c.result {
        Err(message) => k1 + 1,
        Ok(truth) => {
            if truth != Value::Bool(false) {
                let k2 = lemma_evaluate(s2, items[2], host, depth);
                lemma_advance_through(s0, host, k1, k2);
                k1 + 1 + k2
            } else if items.len() == 4 {
                let k2 = lemma_evaluate(s2, items[3], host, depth);
                lemma_advance_through(s0, host, k1, k2);
                k1 + 1 + k2
            } else {
                k1 + 1
            }
        },
    }
}

proof fn lemma_body(
    m: MachineView,
    params: Seq<Seq<char>>,
    body: Seq<Value>,
    values: Seq<Value>,
    env: Seq<Map<Seq<char>, Value>>,
    host: spec_fn(Operator, Value, Value) -> Value,
    depth: nat,
) -> (n: nat)
    requires
        evaluate_body(params, body, values, env, host, depth) is Some,
    ensures
        advance((MachineView { env, ..m }).enter(params, body, values), host, n) == reached(
            m,
            evaluate_body(params, body, values, env, host, depth)->0,
        ),
    decreases depth, 1nat, 0nat,
{
    let s0 = (MachineView { env, ..m }).enter(params, body, values);
    let k = lemma_evaluate(s0, Value::List(body), host, depth);
    let s1 = advance(s0, host, k);
    assert(s1.frames.last() == FrameView::Leave);
    assert(s1.frames.drop_last() == m.frames);
    lemma_advance_through(s0, host, k, 0);
    k + 1
}

/// The machine in the middle of a plain sequence.
pub open spec fn in_sequence(
    m: MachineView,
    items: Seq<Value>,
    from: nat,
    done: Seq<Value>,
    env: Seq<Map<Seq<char>, Value>>,
) -> MachineView {
    MachineView {
        env,
        frames: m.frames.push(FrameView::Sequence { rest: rest_of(items, from + 1), done }),
        control: ControlView::Eval(items[from as int]),
    }
}

proof fn lemma_sequence(
    m: MachineView,
    items: Seq<Value>,
    from: nat,
    done: Seq<Value>,
    env: Seq<Map<Seq<char>, Value>>,
    host: spec_fn(Operator, Value, Value) -> Value,
    depth: nat,
) -> (n: nat)
    requires
        from < items.len(),
        evaluate_each(items, from, done, env, host, depth) is Some,
    ensures
        ({
            let r = evaluate_each(items, from, done, env, host, depth)->0;
            advance(in_sequence(m, items, from, done, env), host, n) == MachineView {
                env: r.1,
                frames: m.frames,
                control: match r.0 {
                    Ok(values) => ControlView::Return(Value::List(values)),
                    Err(message) => ControlView::Raise(message),
                },
            }
        }),
    decreases depth, 2nat, items.len() - from,
{
    let s0 = in_sequence(m, items, from, done, env);
    let k1 = lemma_evaluate(s0, items[from as int], host, depth);
    let e = evaluate(items[from as int], env, host, depth)->0;
    let s1 = advance(s0, host, k1);
    assert(s1.frames.last() == FrameView::Sequence { rest: rest_of(items, from + 1), done });
    assert(s1.frames.drop_last() == m.frames);
    let s2 = next(s1, host);
    lemma_advance_through(s0, host, k1, 0);
    match e.result {
        Err(message) => k1 + 1,
        Ok(value) => {
            if from + 1 < items.len() {
                lemma_rest_of(items, from + 1);
                assert(s2 == in_sequence(m, items, from + 1, done.push(value), e.env));
                let k2 = lemma_sequence(m, items, from + 1, done.push(value), e.env, host, depth);
                lemma_advance_through(s0, host, k1, k2);
                k1 + 1 + k2
            } else {
                assert(rest_of(items, from + 1).len() == 0);
                k1 + 1
            }
        },
    }
}

/// The machine in the middle of the arguments of a call.
pub open spec fn in_arguments(
    m: MachineView,
    params: Seq<Seq<char>>,
    body: Seq<Value>,
    items: Seq<Value>,
    from: nat,
    done: Seq<Value>,
    env: Seq<Map<Seq<char>, Value>>,
) -> MachineView {
    MachineView {
        env,
        frames: m.frames.push(
            FrameView::Arguments { params, body, rest: rest_of(items, from + 1), values: done },
        ),
        control: ControlView::Eval(items[from as int]),
    }
}

proof fn lemma_arguments(
    m: MachineView,
    params: Seq<Seq<char>>,
    body: Seq<Value>,
    items: Seq<Value>,
    from: nat,
    done: Seq<Value>,
    env: Seq<Map<Seq<char>, Value>>,
    host: spec_fn(Operator, Value, Value) -> Value,
    depth: nat,
) -> (n: nat)
    requires
        from < items.len(),
        evaluate_arguments(params, body, items, from, done, env, host, depth) is Some,
    ensures
        advance(in_arguments(m, params, body, items, from, done, env), host, n) == reached(
            m,
            evaluate_arguments(params, body, items, from, done, env, host, depth)->0,
        ),
    decreases depth, 2nat, items.len() - from,
{
    let s0 = in_arguments(m, params, body, items, from, done, env);
    let k1 = lemma_evaluate(s0, items[from as int], host, depth);
    let e = evaluate(items[from as int], env, host, depth)->0;
    let s1 = advance(s0, host, k1);
    assert(s1.frames.last() == FrameView::Arguments {
        params,
        body,
        rest: rest_of(items, from + 1),
        values: done,
    });
    assert(s1.frames.drop_last() == m.frames);
    let s2 = next(s1, host);
    lemma_advance_through(s0, host, k1, 0);
    match e.result {
        Err(message) => k1 + 1,
        Ok(value) => {
            if from + 1 < items.len() {
                lemma_rest_of(items, from + 1);
                assert(s2 == in_arguments(
                    m,
                    params,
                    body,
                    items,
                    from + 1,
                    done.push(value),
                    e.env,
                ));
                let k2 = lemma_arguments(
                    m,
                    params,
                    body,
                    items,
                    from + 1,
                    done.push(value),
                    e.env,
                    host,
                    depth,
                );
                lemma_advance_through(s0, host, k1, k2);
                k1 + 1 + k2
            } else {
                assert(rest_of(items, from + 1).len() == 0);
                assert(s2 == (MachineView { env: e.env, ..m }).enter(
                    params,
                    body,
                    done.push(value),
                ));
                let k2 = lemma_body(m, params, body, done.push(value), e.env, host, depth);
                lemma_advance_through(s0, host, k1, k2);
                k1 + 1 + k2
            }
        },
    }
}

proof fn lemma_call(
    m: MachineView,
    name: Seq<char>,
    items: Seq<Value>,
    host: spec_fn(Operator, Value, Value) -> Value,
    depth: nat,
) -> (n: nat)
    requires
        items.len() > 0,
        evaluate_call(name, items, m.env, host, depth) is Some,
    ensures
        advance(m.call(name, items), host, n) == reached(
            m,
            evaluate_call(name, items, m.env, host, depth)->0,
        ),
    decreases depth, 3nat, 0nat,
{
    match lookup(m.env, name) {
        Some(Value::Lambda(params, body)) => {
            if params.len() != items.len() - 1 {
                0
            } else if params.len() == 0 {
                assert((MachineView { env: m.env, ..m }).enter(params, body, Seq::empty())
                    == m.enter(params, body, Seq::empty()));
                lemma_body(m, params, body, Seq::empty(), m.env, host, depth)
            } else {
                lemma_rest_of(items, 1);
                assert(items.subrange(2, items.len() as int).reverse() == rest_of(items, 2));
                assert(m.call(name, items) == in_arguments(
                    m,
                    params,
                    body,
                    items,
                    1,
                    Seq::empty(),
                    m.env,
                ));
                lemma_arguments(m, params, body, items, 1, Seq::empty(), m.env, host, depth)
            }
        },
        _ => 0,
    }
}

proof fn lemma_halt_stays(
    m: MachineView,
    host: spec_fn(Operator, Value, Value) -> Value,
    n: nat,
)
    requires
        m.control is Halt,
    ensures
        advance(m, host, n) == m,
    decreases n,
{
    if n > 0 {
        assert(next(m, host) == m);
        lemma_halt_stays(m, host, (n - 1) as nat);
    }
}

proof fn lemma_result_of(
    m: MachineView,
    host: spec_fn(Operator, Value, Value) -> Value,
    n: nat,
    outcome: Result<Value, Seq<char>>,
)
    requires
        advance(m, host, n).frames.len() == 0,
        advance(m, host, n).control == settled(outcome),
    ensures
        m.result(host, n + 1) == Some(outcome),
        advance(m, host, n + 1) == advance(m, host, n).go(ControlView::Halt),
    decreases n,
{
    if n == 0 {
        lemma_advance_one(m, host);
    } else {
        let stepped = m.step();
        if stepped.1 is Finish || stepped.1 is Idle {
            lemma_halt_stays(next(m, host), host, (n - 1) as nat);
        } else {
            lemma_result_of(next(m, host), host, (n - 1) as nat, outcome);
        }
    }
}

/// The machine computes what `evaluate` says. Where a program has a value
/// or an error within some depth, the machine, started on the program with
/// no frames, ends after some number of steps with that value or error, and
/// then holds the environment that `evaluate` leaves.
pub proof fn lemma_machine_evaluates(
    program: Value,
    env: Seq<Map<Seq<char>, Value>>,
    host: spec_fn(Operator, Value, Value) -> Value,
    depth: nat,
) -> (steps: nat)
    requires
        evaluate(program, env, host, depth) is Some,
    ensures
        start(Ok(program), env).result(host, steps) == Some(
            evaluate(program, env, host, depth)->0.result,
        ),
        advance(start(Ok(program), env), host, steps) == (MachineView {
            env: evaluate(program, env, host, depth)->0.env,
            frames: Seq::empty(),
            control: ControlView::Halt,
        }),
{
    let m = start(Ok(program), env);
    let e = evaluate(program, env, host, depth)->0;
    let n = lemma_evaluate(m, program, host, depth);
    lemma_result_of(m, host, n, e.result);
    n + 1
}

/// What a program evaluates to does not depend on the depth allowed, as
/// long as that is enough.
pub proof fn lemma_depth_is_no_matter(
    program: Value,
    env: Seq<Map<Seq<char>, Value>>,
    host: spec_fn(Operator, Value, Value) -> Value,
    depth: nat,
    other: nat,
)
    requires
        evaluate(program, env, host, depth) is Some,
        evaluate(program, env, host, other) is Some,
    ensures
        evaluate(program, env, host, depth) == evaluate(program, env, host, other),
{
    let m = start(Ok(program), env);
    let a = lemma_machine_evaluates(program, env, host, depth);
    let b = lemma_machine_evaluates(program, env, host, other);
    if a <= b {
        crate::eval::lemma_result_stable(m, host, a, b);
        lemma_advance_add(m, host, a, (b - a) as nat);
        lemma_halt_stays(advance(m, host, a), host, (b - a) as nat);
    } else {
        crate::eval::lemma_result_stable(m, host, b, a);
        lemma_advance_add(m, host, b, (a - b) as nat);
        lemma_halt_stays(advance(m, host, b), host, (a - b) as nat);
    }
}

/// Two chains of scopes that differ in their innermost scope at most.
pub open spec fn same_outer(a: Seq<Map<Seq<char>, Value>>, b: Seq<Map<Seq<char>, Value>>) -> bool {
    a.len() == b.len() && a.len() >= 1 && a.drop_last() == b.drop_last()
}

proof fn lemma_bind_all_outer(
    chain: Seq<Map<Seq<char>, Value>>,
    params: Seq<Seq<char>>,
    values: Seq<Value>,
    n: nat,
)
    requires
        chain.len() >= 1,
    ensures
        same_outer(bind_all(chain, params, values, n), chain),
    decreases n,
{
    if !(n == 0 || n > params.len() || n > values.len()) {
        lemma_bind_all_outer(chain, params, values, (n - 1) as nat);
        let before = bind_all(chain, params, values, (n - 1) as nat);
        assert(bind(before, params[n - 1], values[n - 1]).drop_last() == before.drop_last());
    }
}

proof fn lemma_evaluate_outer(
    v: Value,
    env: Seq<Map<Seq<char>, Value>>,
    host: spec_fn(Operator, Value, Value) -> Value,
    depth: nat,
)
    requires
        env.len() >= 1,
        evaluate(v, env, host, depth) is Some,
    ensures
        same_outer(evaluate(v, env, host, depth)->0.env, env),
    decreases depth, 0nat, 0nat,
{
    match v {
        Value::List(items) => {
            lemma_list_outer(items, env, host, (depth - 1) as nat);
        },
        _ => {},
    }
}

proof fn lemma_each_outer(
    items: Seq<Value>,
    from: nat,
    done: Seq<Value>,
    env: Seq<Map<Seq<char>, Value>>,
    host: spec_fn(Operator, Value, Value) -> Value,
    depth: nat,
)
    requires
        env.len() >= 1,
        evaluate_each(items, from, done, env, host, depth) is Some,
    ensures
        ({
            let r = evaluate_each(items, from, done, env, host, depth)->0;
            same_outer(r.1, env)
        }),
    decreases depth, 1nat, items.len() - from,
{
    if from < items.len() {
        lemma_evaluate_outer(items[from as int], env, host, depth);
        let e = evaluate(items[from as int], env, host, depth)->0;
        if e.result is Ok {
            lemma_each_outer(items, from + 1, done.push(e.result->Ok_0), e.env, host, depth);
        }
    }
}

proof fn lemma_body_outer(
    params: Seq<Seq<char>>,
    body: Seq<Value>,
    values: Seq<Value>,
    env: Seq<Map<Seq<char>, Value>>,
    host: spec_fn(Operator, Value, Value) -> Value,
    depth: nat,
)
    requires
        env.len() >= 1,
        evaluate_body(params, body, values, env, host, depth) is Some,
    ensures
        evaluate_body(params, body, values, env, host, depth)->0.env == env,
    decreases depth, 1nat, 0nat,
{
    let opened = env.push(Map::empty());
    let inner = enter_call(env, params, values);
    lemma_bind_all_outer(opened, params, values, crate::eval::min(params.len(), values.len()));
    assert(opened.drop_last() == env);
    lemma_evaluate_outer(Value::List(body), inner, host, depth);
}

proof fn lemma_list_outer(
    items: Seq<Value>,
    env: Seq<Map<Seq<char>, Value>>,
    host: spec_fn(Operator, Value, Value) -> Value,
    depth: nat,
)
    requires
        env.len() >= 1,
        evaluate_list(items, env, host, depth) is Some,
    ensures
        same_outer(evaluate_list(items, env, host, depth)->0.env, env),
    decreases depth, 3nat, 0nat,
{
    if items.len() > 0 {
        match items[0] {
            Value::Symbol(name) => {
                if name == "define"@ {
                    if items.len() == 3 && items[1] is Symbol {
                        lemma_evaluate_outer(items[2], env, host, depth);
                        let e = evaluate(items[2], env, host, depth)->0;
                        if e.result is Ok {
                            assert(bind(e.env, items[1]->Symbol_0, e.result->Ok_0).drop_last()
                                == e.env.drop_last());
                        }
                    }
                } else if operator_named(name) is Some {
                    if items.len() == 3 {
                        lemma_evaluate_outer(items[1], env, host, depth);
                        let l = evaluate(items[1], env, host, depth)->0;
                        if l.result is Ok {
                            lemma_evaluate_outer(items[2], l.env, host, depth);
                        }
                    }
                } else if name == "if"@ {
                    if items.len() == 3 || items.len() == 4 {
                        lemma_evaluate_outer(items[1], env, host, depth);
                        let c = evaluate(items[1], env, host, depth)->0;
                        if c.result is Ok {
                            if c.result->Ok_0 != Value::Bool(false) {
                                lemma_evaluate_outer(items[2], c.env, host, depth);
                            } else if items.len() == 4 {
                                lemma_evaluate_outer(items[3], c.env, host, depth);
                            }
                        }
                    }
                } else if name == "lambda"@ {
                } else {
                    match lookup(env, name) {
                        Some(Value::Lambda(params, body)) => {
                            if params.len() == items.len() - 1 {
                                lemma_each_outer(items, 1, Seq::empty(), env, host, depth);
                                let r = evaluate_each(items, 1, Seq::empty(), env, host, depth)->0;
                                if r.0 is Ok {
                                    lemma_body_outer(params, body, r.0->Ok_0, r.1, host, depth);
                                }
                            }
                        },
                        _ => {},
                    }
                }
            },
            _ => {
                lemma_each_outer(items, 0, Seq::empty(), env, host, depth);
            },
        }
    }
}

/// Evaluation writes to the current scope only. Whatever an expression
/// does, the chain of scopes is as deep afterwards as it was, and every
/// scope around the current one is as it was. So what a procedure binds in
/// its own scope is gone when it returns.
pub proof fn lemma_outer_scopes_untouched(
    v: Value,
    env: Seq<Map<Seq<char>, Value>>,
    host: spec_fn(Operator, Value, Value) -> Value,
    depth: nat,
)
    requires
        env.len() >= 1,
        evaluate(v, env, host, depth) is Some,
    ensures
        evaluate(v, env, host, depth)->0.env.len() == env.len(),
        evaluate(v, env, host, depth)->0.env.drop_last() == env.drop_last(),
{
    lemma_evaluate_outer(v, env, host, depth);
}

} // verus!
