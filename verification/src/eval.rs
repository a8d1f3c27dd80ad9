//! The evaluator, as a machine that is stepped from outside.
//!
//! Evaluation is a sequence of small steps over an explicit state: the
//! environment, a stack of frames that say what to do with the value of the
//! expression at hand, and that expression or value itself. The machine does
//! no floating-point arithmetic. Where an operator meets a float, it stops and
//! names the operation; its host computes it and hands the result back.

use crate::env::{bind, lookup, Env};
use crate::lexer::{token_views, Token};
use crate::object::{lemma_view_lambda, lemma_view_list, names, render, views, Object, Value};
use crate::parser::{parse, parse_spec};
use crate::text::{decimal, push_decimal, same_text};
use vstd::arithmetic::div_mod::{lemma_div_decreases, lemma_div_nonincreasing, lemma_div_pos_is_pos};
use vstd::prelude::*;
use vstd::string::StringExecFns;

verus! {

/// The binary operators.
#[derive(Clone, Copy, Debug, PartialEq, Eq)]
pub enum Operator {
    Add,
    Sub,
    Mul,
    Div,
    Less,
    Greater,
    Equal,
    NotEqual,
}

/// The operator that a symbol names, if it names one.
pub open spec fn operator_named(name: Seq<char>) -> Option<Operator> {
    if name == "+"@ {
        Some(Operator::Add)
    } else if name == "-"@ {
        Some(Operator::Sub)
    } else if name == "*"@ {
        Some(Operator::Mul)
    } else if name == "/"@ {
        Some(Operator::Div)
    } else if name == "<"@ {
        Some(Operator::Less)
    } else if name == ">"@ {
        Some(Operator::Greater)
    } else if name == "="@ {
        Some(Operator::Equal)
    } else if name == "!="@ {
        Some(Operator::NotEqual)
    } else {
        None
    }
}

pub open spec fn operator_text(op: Operator) -> Seq<char> {
    match op {
        Operator::Add => "+"@,
        Operator::Sub => "-"@,
        Operator::Mul => "*"@,
        Operator::Div => "/"@,
        Operator::Less => "<"@,
        Operator::Greater => ">"@,
        Operator::Equal => "="@,
        Operator::NotEqual => "!="@,
    }
}

/// What the machine does with the value of the expression it is evaluating.
#[derive(Debug, PartialEq)]
pub enum Frame {
    /// The value is the next element of a plain sequence. `done` holds the
    /// values of the elements before it, `rest` the expressions after it, the
    /// next one last.
    Sequence { rest: Vec<Object>, done: Vec<Object> },
    /// The value is bound to `name` in the current scope.
    Define { name: String },
    /// The value is the left operand of `op`; `right` is evaluated next.
    Left { op: Operator, right: Object },
    /// The value is the right operand of `op`, and `left` the left one.
    Right { op: Operator, left: Object },
    /// The value is the condition of an `if`.
    Branch { then: Object, otherwise: Option<Object> },
    /// The value is the next argument of a call. `values` holds the arguments
    /// before it, `rest` the argument expressions after it, the next one last.
    Arguments { params: Vec<String>, body: Vec<Object>, rest: Vec<Object>, values: Vec<Object> },
    /// The value is the result of a procedure's body: its scope is closed.
    Leave,
}

pub ghost enum FrameView {
    Sequence { rest: Seq<Value>, done: Seq<Value> },
    Define { name: Seq<char> },
    Left { op: Operator, right: Value },
    Right { op: Operator, left: Value },
    Branch { then: Value, otherwise: Option<Value> },
    Arguments { params: Seq<Seq<char>>, body: Seq<Value>, rest: Seq<Value>, values: Seq<Value> },
    Leave,
}

impl View for Frame {
    type V = FrameView;

    open spec fn view(&self) -> FrameView {
        match self {
            Frame::Sequence { rest, done } => FrameView::Sequence {
                rest: views(rest@),
                done: views(done@),
            },
            Frame::Define { name } => FrameView::Define { name: name@ },
            Frame::Left { op, right } => FrameView::Left { op: *op, right: right@ },
            Frame::Right { op, left } => FrameView::Right { op: *op, left: left@ },
            Frame::Branch { then, otherwise } => FrameView::Branch {
                then: then@,
                otherwise: match otherwise {
                    Some(e) => Some(e@),
                    None => None,
                },
            },
            Frame::Arguments { params, body, rest, values } => FrameView::Arguments {
                params: names(params@),
                body: views(body@),
                rest: views(rest@),
                values: views(values@),
            },
            Frame::Leave => FrameView::Leave,
        }
    }
}

/// What the machine is about to do.
#[derive(Debug, PartialEq)]
pub enum Control {
    /// Evaluate this expression in the current scope.
    Eval(Object),
    /// Hand this value to the innermost frame.
    Return(Object),
    /// Give up with this message.
    Raise(String),
    /// Wait for the host to apply the operator to the two numbers, of which
    /// at least one is a float.
    Await(Operator, Object, Object),
    /// Nothing: no evaluation is under way.
    Halt,
}

pub ghost enum ControlView {
    Eval(Value),
    Return(Value),
    Raise(Seq<char>),
    Await(Operator, Value, Value),
    Halt,
}

impl View for Control {
    type V = ControlView;

    open spec fn view(&self) -> ControlView {
        match self {
            Control::Eval(o) => ControlView::Eval(o@),
            Control::Return(o) => ControlView::Return(o@),
            Control::Raise(s) => ControlView::Raise(s@),
            Control::Await(op, l, r) => ControlView::Await(*op, l@, r@),
            Control::Halt => ControlView::Halt,
        }
    }
}

/// What a step asks of the host.
#[derive(Debug, PartialEq)]
pub enum Action {
    /// Step again.
    Continue,
    /// Apply the operator to the two numbers as 64-bit floats, an integer
    /// converted first, and `answer` with the result: a float for an
    /// arithmetic operator, a boolean for a comparison.
    Compute(Operator, Object, Object),
    /// The evaluation has ended with this result.
    Finish(Result<Object, String>),
    /// No evaluation is under way.
    Idle,
}

pub ghost enum ActionView {
    Continue,
    Compute(Operator, Value, Value),
    Finish(Result<Value, Seq<char>>),
    Idle,
}

impl View for Action {
    type V = ActionView;

    open spec fn view(&self) -> ActionView {
        match self {
            Action::Continue => ActionView::Continue,
            Action::Compute(op, l, r) => ActionView::Compute(*op, l@, r@),
            Action::Finish(r) => ActionView::Finish(
                match r {
                    Ok(o) => Ok(o@),
                    Err(e) => Err(e@),
                },
            ),
            Action::Idle => ActionView::Idle,
        }
    }
}

/// The state of an evaluation.
pub ghost struct MachineView {
    pub env: Seq<Map<Seq<char>, Value>>,
    pub frames: Seq<FrameView>,
    pub control: ControlView,
}

impl MachineView {
    pub open spec fn go(self, control: ControlView) -> MachineView {
        MachineView { control, ..self }
    }

    pub open spec fn raise(self, message: Seq<char>) -> MachineView {
        self.go(ControlView::Raise(message))
    }

    pub open spec fn push(self, frame: FrameView) -> MachineView {
        MachineView { frames: self.frames.push(frame), ..self }
    }

    pub open spec fn pop(self) -> MachineView {
        MachineView { frames: self.frames.drop_last(), ..self }
    }
}

pub open spec fn arity_error(form: Seq<char>, expected: Seq<char>, given: int) -> Seq<char> {
    form + " expects "@ + expected + ", but was given "@ + decimal(given as nat)
}

pub open spec fn non_numeric(op: Operator, left: Value, right: Value) -> Seq<char> {
    "Unable to apply binary operation on non-numeric values: ("@ + operator_text(op) + " "@
        + render(left) + " "@ + render(right) + ")"@
}

/// The quotient of two integers, rounded toward zero.
pub open spec fn truncated_quotient(a: int, b: int) -> int {
    if a >= 0 && b > 0 {
        a / b
    } else if a >= 0 {
        -(a / (-b))
    } else if b > 0 {
        -((-a) / b)
    } else {
        (-a) / (-b)
    }
}

/// Whether an operator has a result on two values. On two integers a sum,
/// a difference and a quotient have one only where the exact result fits in
/// 64 bits, and a quotient only where the divisor is not zero. Everything
/// else has a result, which may be an error.
pub open spec fn defined(op: Operator, left: Value, right: Value) -> bool {
    match (left, right) {
        (Value::Integer(a), Value::Integer(b)) => match op {
            Operator::Add => i64::MIN <= a + b <= i64::MAX,
            Operator::Sub => i64::MIN <= a - b <= i64::MAX,
            Operator::Div => b != 0 && !(a == i64::MIN && b == -1),
            _ => true,
        },
        _ => true,
    }
}

/// What the machine says of an operation that has no result.
pub open spec fn undefined(op: Operator, right: Value) -> Seq<char> {
    if op == Operator::Div && right == Value::Integer(0) {
        "Division by zero"@
    } else {
        "Integer overflow"@
    }
}

/// An operator applied to two integers on which it has a result: the exact
/// sum, difference or comparison, the quotient rounded toward zero, and the
/// exact product, or an error where the product does not fit in 64 bits.
pub open spec fn integer_op(op: Operator, a: i64, b: i64) -> ControlView {
    match op {
        Operator::Add => ControlView::Return(Value::Integer((a + b) as i64)),
        Operator::Sub => ControlView::Return(Value::Integer((a - b) as i64)),
        Operator::Mul => if i64::MIN <= a * b <= i64::MAX {
            ControlView::Return(Value::Integer((a * b) as i64))
        } else {
            ControlView::Raise("Integer overflow"@)
        },
        Operator::Div => ControlView::Return(
            Value::Integer(truncated_quotient(a as int, b as int) as i64),
        ),
        Operator::Less => ControlView::Return(Value::Bool(a < b)),
        Operator::Greater => ControlView::Return(Value::Bool(a > b)),
        Operator::Equal => ControlView::Return(Value::Bool(a == b)),
        Operator::NotEqual => ControlView::Return(Value::Bool(a != b)),
    }
}

pub open spec fn is_comparison(op: Operator) -> bool {
    op == Operator::Less || op == Operator::Greater || op == Operator::Equal || op
        == Operator::NotEqual
}

/// Whether a value can be the result of an operator on floats: a boolean
/// for a comparison, a float for arithmetic.
pub open spec fn answers(op: Operator, v: Value) -> bool {
    if is_comparison(op) {
        v is Bool
    } else {
        v is Float
    }
}

/// What the machine says of an answer that cannot be the operator's result.
pub open spec fn wrong_answer(op: Operator, v: Value) -> Seq<char> {
    "Operator "@ + operator_text(op) + " was answered with "@ + render(v)
}

pub open spec fn is_number(v: Value) -> bool {
    v is Integer || v is Float
}

/// An operator applied to two values on which it has a result. Two integers
/// are computed with at once; two numbers of which one is a float are left
/// to the host; anything else is an error that shows the operator and both
/// operands.
pub open spec fn apply(op: Operator, left: Value, right: Value) -> ControlView {
    match (left, right) {
        (Value::Integer(a), Value::Integer(b)) => integer_op(op, a, b),
        _ => if is_number(left) && is_number(right) {
            ControlView::Await(op, left, right)
        } else {
            ControlView::Raise(non_numeric(op, left, right))
        },
    }
}

/// The first `n` parameters bound, in order, to the values at their places
/// in the innermost scope of `chain`. A name that occurs twice keeps its
/// later value.
pub open spec fn bind_all(
    chain: Seq<Map<Seq<char>, Value>>,
    params: Seq<Seq<char>>,
    values: Seq<Value>,
    n: nat,
) -> Seq<Map<Seq<char>, Value>>
    decreases n,
{
    if n == 0 || n > params.len() || n > values.len() {
        chain
    } else {
        bind(bind_all(chain, params, values, (n - 1) as nat), params[n - 1], values[n - 1])
    }
}

pub open spec fn min(a: nat, b: nat) -> nat {
    if a <= b {
        a
    } else {
        b
    }
}

/// The scope of a call: `chain` with a new innermost scope in which the
/// parameters are bound to the arguments.
pub open spec fn enter_call(
    chain: Seq<Map<Seq<char>, Value>>,
    params: Seq<Seq<char>>,
    values: Seq<Value>,
) -> Seq<Map<Seq<char>, Value>> {
    bind_all(chain.push(Map::empty()), params, values, min(params.len(), values.len()))
}

/// `chain` without its innermost scope, unless that is the only one.
pub open spec fn leave(chain: Seq<Map<Seq<char>, Value>>) -> Seq<Map<Seq<char>, Value>> {
    if chain.len() > 1 {
        chain.drop_last()
    } else {
        chain
    }
}

/// The first value of `params` that is no symbol, if there is one among the
/// first `n`.
pub open spec fn first_non_symbol(params: Seq<Value>, n: nat) -> Option<Value>
    decreases n,
{
    if n == 0 || n > params.len() {
        None
    } else {
        match first_non_symbol(params, (n - 1) as nat) {
            Some(v) => Some(v),
            None => if params[n - 1] is Symbol {
                None
            } else {
                Some(params[n - 1])
            },
        }
    }
}

pub open spec fn symbol_names(params: Seq<Value>) -> Seq<Seq<char>> {
    Seq::new(params.len(), |i: int| params[i]->Symbol_0)
}

/// The procedure that `(lambda (<param>…) <body>)` makes: its parameters are
/// the symbols of the second element, its body the elements of the third,
/// which is one expression and is kept without its outer parentheses.
pub open spec fn lambda_value(items: Seq<Value>) -> Result<Value, Seq<char>> {
    if items.len() != 3 {
        Err(arity_error("lambda"@, "2 arguments"@, items.len() - 1))
    } else {
        match (items[1], items[2]) {
            (Value::List(params), Value::List(body)) => match first_non_symbol(
                params,
                params.len(),
            ) {
                Some(v) => Err("Invalid lambda parameter: "@ + render(v)),
                None => Ok(Value::Lambda(symbol_names(params), body)),
            },
            (Value::List(_), other) => Err("Invalid lambda body: "@ + render(other)),
            (other, _) => Err("Invalid lambda parameter: "@ + render(other)),
        }
    }
}

/// What the machine does with the outcome of an evaluation: a value is
/// handed on, an error raised.
pub open spec fn settled(outcome: Result<Value, Seq<char>>) -> ControlView {
    match outcome {
        Ok(v) => ControlView::Return(v),
        Err(message) => ControlView::Raise(message),
    }
}

impl MachineView {
    /// `(define <symbol> <expr>)`: the expression is evaluated and its value
    /// bound to the symbol.
    pub open spec fn define(self, items: Seq<Value>) -> MachineView {
        if items.len() != 3 {
            self.raise(arity_error("define"@, "2 arguments"@, items.len() - 1))
        } else {
            match items[1] {
                Value::Symbol(name) => self.push(FrameView::Define { name }).go(
                    ControlView::Eval(items[2]),
                ),
                other => self.raise("define expects a symbol, but was given "@ + render(other)),
            }
        }
    }

    /// `(<op> <left> <right>)`: the left operand is evaluated first.
    pub open spec fn operation(self, op: Operator, items: Seq<Value>) -> MachineView {
        if items.len() != 3 {
            self.raise(
                arity_error("Operator "@ + operator_text(op), "2 operands"@, items.len() - 1),
            )
        } else {
            self.push(FrameView::Left { op, right: items[2] }).go(ControlView::Eval(items[1]))
        }
    }

    /// `(if <cond> <then>)` and `(if <cond> <then> <else>)`: the condition is
    /// evaluated first.
    pub open spec fn condition(self, items: Seq<Value>) -> MachineView {
        if items.len() == 3 {
            self.push(FrameView::Branch { then: items[2], otherwise: None }).go(
                ControlView::Eval(items[1]),
            )
        } else if items.len() == 4 {
            self.push(FrameView::Branch { then: items[2], otherwise: Some(items[3]) }).go(
                ControlView::Eval(items[1]),
            )
        } else {
            self.raise(arity_error("if"@, "2 or 3 arguments"@, items.len() - 1))
        }
    }

    /// `(lambda (<param>…) <body>)`: nothing is evaluated.
    pub open spec fn lambda(self, items: Seq<Value>) -> MachineView {
        self.go(settled(lambda_value(items)))
    }

    /// The body of a procedure, evaluated in a new scope where the parameters
    /// are bound to the arguments. The scope is closed when the body is done.
    pub open spec fn enter(self, params: Seq<Seq<char>>, body: Seq<Value>, values: Seq<Value>)
        -> MachineView {
        MachineView {
            env: enter_call(self.env, params, values),
            frames: self.frames.push(FrameView::Leave),
            control: ControlView::Eval(Value::List(body)),
        }
    }

    /// `(<name> <arg>…)`: the procedure bound to `name` is called. The
    /// arguments are evaluated from left to right in the caller's scope,
    /// before anything of the body.
    pub open spec fn call(self, name: Seq<char>, items: Seq<Value>) -> MachineView {
        match lookup(self.env, name) {
            None => self.raise("Unbound symbol: "@ + name),
            Some(Value::Lambda(params, body)) => if params.len() != items.len() - 1 {
                self.raise(
                    arity_error("Lambda"@, decimal(params.len()) + " parameters"@, items.len() - 1),
                )
            } else if params.len() == 0 {
                self.enter(params, body, Seq::empty())
            } else {
                self.push(
                    FrameView::Arguments {
                        params,
                        body,
                        rest: items.subrange(2, items.len() as int).reverse(),
                        values: Seq::empty(),
                    },
                ).go(ControlView::Eval(items[1]))
            },
            Some(_) => self.raise("Trying to evaluate non-function expression: "@ + name),
        }
    }

    /// A list is a special form, a call or a plain sequence, by its first
    /// element.
    pub open spec fn list(self, items: Seq<Value>) -> MachineView {
        if items.len() == 0 {
            self.raise("Empty list"@)
        } else {
            match items[0] {
                Value::Symbol(name) => if name == "define"@ {
                    self.define(items)
                } else if operator_named(name) is Some {
                    self.operation(operator_named(name)->0, items)
                } else if name == "if"@ {
                    self.condition(items)
                } else if name == "lambda"@ {
                    self.lambda(items)
                } else {
                    self.call(name, items)
                },
                _ => self.push(
                    FrameView::Sequence {
                        rest: items.subrange(1, items.len() as int).reverse(),
                        done: Seq::empty(),
                    },
                ).go(ControlView::Eval(items[0])),
            }
        }
    }

    /// The evaluation of one expression begins.
    pub open spec fn eval(self, v: Value) -> MachineView {
        match v {
            Value::Symbol(name) => match lookup(self.env, name) {
                Some(value) => self.go(ControlView::Return(value)),
                None => self.raise("Unbound symbol "@ + name),
            },
            Value::Lambda(_, _) => self.raise("Lambda not yet evaluable"@),
            Value::List(items) => self.list(items),
            _ => self.go(ControlView::Return(v)),
        }
    }

    /// A frame, already taken off the stack, receives the value it waited
    /// for.
    pub open spec fn resume(self, frame: FrameView, v: Value) -> MachineView {
        match frame {
            FrameView::Sequence { rest, done } => if rest.len() == 0 {
                self.go(ControlView::Return(Value::List(done.push(v))))
            } else {
                self.push(FrameView::Sequence { rest: rest.drop_last(), done: done.push(v) }).go(
                    ControlView::Eval(rest.last()),
                )
            },
            FrameView::Define { name } => MachineView {
                env: bind(self.env, name, v),
                control: ControlView::Return(Value::Bool(true)),
                ..self
            },
            FrameView::Left { op, right } => self.push(FrameView::Right { op, left: v }).go(
                ControlView::Eval(right),
            ),
            FrameView::Right { op, left } => if defined(op, left, v) {
                self.go(apply(op, left, v))
            } else {
                self.raise(undefined(op, v))
            },
            FrameView::Branch { then, otherwise } => if v == Value::Bool(false) {
                match otherwise {
                    Some(e) => self.go(ControlView::Eval(e)),
                    None => self.go(ControlView::Return(Value::Bool(false))),
                }
            } else {
                self.go(ControlView::Eval(then))
            },
            FrameView::Arguments { params, body, rest, values } => if rest.len() == 0 {
                self.enter(params, body, values.push(v))
            } else {
                self.push(
                    FrameView::Arguments {
                        params,
                        body,
                        rest: rest.drop_last(),
                        values: values.push(v),
                    },
                ).go(ControlView::Eval(rest.last()))
            },
            FrameView::Leave => MachineView {
                env: leave(self.env),
                control: ControlView::Return(v),
                ..self
            },
        }
    }

    /// A frame, already taken off the stack, is abandoned because of an
    /// error: the scope of a call is closed, and nothing else happens.
    pub open spec fn abandon(self, frame: FrameView) -> MachineView {
        match frame {
            FrameView::Leave => MachineView { env: leave(self.env), ..self },
            _ => self,
        }
    }

    /// One step of the machine, and what it asks of the host.
    pub open spec fn step(self) -> (MachineView, ActionView) {
        match self.control {
            ControlView::Halt => (self, ActionView::Idle),
            ControlView::Await(op, left, right) => (self, ActionView::Compute(op, left, right)),
            ControlView::Eval(v) => (self.eval(v), ActionView::Continue),
            ControlView::Return(v) => if self.frames.len() == 0 {
                (self.go(ControlView::Halt), ActionView::Finish(Ok(v)))
            } else {
                (self.pop().resume(self.frames.last(), v), ActionView::Continue)
            },
            ControlView::Raise(message) => if self.frames.len() == 0 {
                (self.go(ControlView::Halt), ActionView::Finish(Err(message)))
            } else {
                (self.pop().abandon(self.frames.last()), ActionView::Continue)
            },
        }
    }

    /// The host hands in the result of the operation that the machine waits
    /// for: a boolean for a comparison, a float for arithmetic. Anything else
    /// is an error. A machine that waits for no result is left as it is.
    pub open spec fn answer(self, v: Value) -> MachineView {
        match self.control {
            ControlView::Await(op, _, _) => if answers(op, v) {
                self.go(ControlView::Return(v))
            } else {
                self.raise(wrong_answer(op, v))
            },
            _ => self,
        }
    }

    /// Steps until a step asks for something else than another step, but at
    /// most `fuel` times.
    pub open spec fn run(self, fuel: nat) -> (MachineView, ActionView)
        decreases fuel,
    {
        if fuel == 0 {
            (self, ActionView::Continue)
        } else {
            let next = self.step();
            if next.1 is Continue {
                next.0.run((fuel - 1) as nat)
            } else {
                next
            }
        }
    }

    /// What the evaluation ends with when the host answers each operation on
    /// floats as `host` says, if it ends within `fuel` steps.
    pub open spec fn result(
        self,
        host: spec_fn(Operator, Value, Value) -> Value,
        fuel: nat,
    ) -> Option<Result<Value, Seq<char>>>
        decreases fuel,
    {
        if fuel == 0 {
            None
        } else {
            let next = self.step();
            match next.1 {
                ActionView::Continue => next.0.result(host, (fuel - 1) as nat),
                ActionView::Compute(op, left, right) => next.0.answer(
                    host(op, left, right),
                ).result(host, (fuel - 1) as nat),
                ActionView::Finish(r) => Some(r),
                ActionView::Idle => None,
            }
        }
    }
}

/// The machine at the start of the evaluation of a program, given as what
/// the parser made of it, in the environment `env`.
pub open spec fn start(program: Result<Value, Seq<char>>, env: Seq<Map<Seq<char>, Value>>)
    -> MachineView {
    MachineView {
        env,
        frames: Seq::empty(),
        control: match program {
            Ok(v) => ControlView::Eval(v),
            Err(e) => ControlView::Raise("Parse error: "@ + e),
        },
    }
}

pub open spec fn frame_views(frames: Seq<Frame>) -> Seq<FrameView> {
    Seq::new(frames.len(), |i: int| frames[i]@)
}

/// An evaluation under way, or none.
pub struct Machine {
    env: Env,
    frames: Vec<Frame>,
    control: Control,
}

impl View for Machine {
    type V = MachineView;

    closed spec fn view(&self) -> MachineView {
        MachineView { env: self.env@, frames: frame_views(self.frames@), control: self.control@ }
    }
}

fn join(head: &str, tail: &str) -> (s: String)
    ensures
        s@ == head@ + tail@,
{
    let mut s = String::from_str(head);
    s.append(tail);
    s
}

fn arity_message(form: &str, expected: &str, given: usize) -> (s: String)
    ensures
        s@ == arity_error(form@, expected@, given as int),
{
    let mut s = String::from_str(form);
    s.append(" expects ");
    s.append(expected);
    s.append(", but was given ");
    push_decimal(&mut s, given as u128);
    s
}

fn operator_of(name: &str) -> (r: Option<Operator>)
    ensures
        r == operator_named(name@),
{
    if same_text(name, "+") {
        Some(Operator::Add)
    } else if same_text(name, "-") {
        Some(Operator::Sub)
    } else if same_text(name, "*") {
        Some(Operator::Mul)
    } else if same_text(name, "/") {
        Some(Operator::Div)
    } else if same_text(name, "<") {
        Some(Operator::Less)
    } else if same_text(name, ">") {
        Some(Operator::Greater)
    } else if same_text(name, "=") {
        Some(Operator::Equal)
    } else if same_text(name, "!=") {
        Some(Operator::NotEqual)
    } else {
        None
    }
}

fn operator_name(op: Operator) -> (s: &'static str)
    ensures
        s@ == operator_text(op),
{
    match op {
        Operator::Add => "+",
        Operator::Sub => "-",
        Operator::Mul => "*",
        Operator::Div => "/",
        Operator::Less => "<",
        Operator::Greater => ">",
        Operator::Equal => "=",
        Operator::NotEqual => "!=",
    }
}

/// The quotient of two 64-bit integers fits in 64 bits, but for the smallest
/// one divided by minus one.
proof fn lemma_quotient_fits(a: int, b: int)
    requires
        i64::MIN <= a <= i64::MAX,
        i64::MIN <= b <= i64::MAX,
        b != 0,
    ensures
        i64::MIN <= truncated_quotient(a, b) <= i64::MAX + 1,
        truncated_quotient(a, b) == i64::MAX + 1 <==> (a == i64::MIN && b == -1),
{
    let x = if a >= 0 {
        a
    } else {
        -a
    };
    let d = if b > 0 {
        b
    } else {
        -b
    };
    lemma_div_pos_is_pos(x, d);
    lemma_div_nonincreasing(x, d);
    if x > 0 && d > 1 {
        lemma_div_decreases(x, d);
    }
    if d == 1 {
        assert(x / 1 == x);
    }
}

fn integer_binop(op: Operator, a: i64, b: i64) -> (c: Control)
    requires
        defined(op, Value::Integer(a), Value::Integer(b)),
    ensures
        c@ == integer_op(op, a, b),
{
    match op {
        Operator::Add => Control::Return(Object::Integer(a + b)),
        Operator::Sub => Control::Return(Object::Integer(a - b)),
        Operator::Mul => match a.checked_mul(b) {
            Some(product) => Control::Return(Object::Integer(product)),
            None => Control::Raise(String::from_str("Integer overflow")),
        },
        Operator::Div => {
            proof {
                lemma_quotient_fits(a as int, b as int);
            }
            Control::Return(Object::Integer(a.checked_div(b).unwrap()))
        },
        Operator::Less => Control::Return(Object::Bool(a < b)),
        Operator::Greater => Control::Return(Object::Bool(a > b)),
        Operator::Equal => Control::Return(Object::Bool(a == b)),
        Operator::NotEqual => Control::Return(Object::Bool(a != b)),
    }
}

/// Whether the operator has a result on the two values.
pub fn is_defined(op: Operator, left: &Object, right: &Object) -> (r: bool)
    ensures
        r == defined(op, left@, right@),
{
    match (left, right) {
        (Object::Integer(a), Object::Integer(b)) => match op {
            Operator::Add => a.checked_add(*b).is_some(),
            Operator::Sub => a.checked_sub(*b).is_some(),
            Operator::Div => *b != 0 && !(*a == i64::MIN && *b == -1),
            _ => true,
        },
        _ => true,
    }
}

fn is_compare(op: Operator) -> (r: bool)
    ensures
        r == is_comparison(op),
{
    match op {
        Operator::Less => true,
        Operator::Greater => true,
        Operator::Equal => true,
        Operator::NotEqual => true,
        _ => false,
    }
}

fn is_numeric(o: &Object) -> (r: bool)
    ensures
        r == is_number(o@),
{
    match o {
        Object::Integer(_) => true,
        Object::Float(_) => true,
        _ => false,
    }
}

/// Applies a binary operator to the values of its two operands, on which
/// it has a result.
pub fn binop(op: Operator, left: Object, right: Object) -> (c: Control)
    requires
        defined(op, left@, right@),
    ensures
        c@ == apply(op, left@, right@),
{
    let integers: Option<(i64, i64)> = match (&left, &right) {
        (Object::Integer(a), Object::Integer(b)) => Some((*a, *b)),
        _ => None,
    };
    match integers {
        Some((a, b)) => integer_binop(op, a, b),
        None => if is_numeric(&left) && is_numeric(&right) {
            Control::Await(op, left, right)
        } else {
            let mut s = String::from_str(
                "Unable to apply binary operation on non-numeric values: (",
            );
            s.append(operator_name(op));
            s.append(" ");
            left.write_text(&mut s);
            s.append(" ");
            right.write_text(&mut s);
            s.append(")");
            Control::Raise(s)
        },
    }
}

/// Whether a value counts as true: every value but the boolean false does.
pub fn eval_condition(value: &Object) -> (r: bool)
    ensures
        r == (value@ != Value::Bool(false)),
{
    match value {
        Object::Bool(b) => *b,
        _ => true,
    }
}

/// Takes the objects from index `keep` on off `items`, the last one first.
fn reversed_tail(items: &mut Vec<Object>, keep: usize) -> (rest: Vec<Object>)
    requires
        keep <= old(items).len(),
    ensures
        final(items)@ == old(items)@.take(keep as int),
        views(rest@) == views(old(items)@).subrange(
            keep as int,
            old(items).len() as int,
        ).reverse(),
{
    let ghost original = items@;
    let mut rest: Vec<Object> = Vec::new();
    while items.len() > keep
        invariant
            keep <= items.len() <= original.len(),
            items@ == original.take(items.len() as int),
            rest.len() == original.len() - items.len(),
            forall|j: int| 0 <= j < rest.len() ==> rest[j] == original[original.len() - 1 - j],
        decreases items.len(),
    {
        let o = items.pop().unwrap();
        rest.push(o);
    }
    assert(views(rest@) =~= views(original).subrange(
        keep as int,
        original.len() as int,
    ).reverse());
    rest
}

/// The names of a list of symbols, or the first element that is no symbol.
fn parameter_names(params: &Vec<Object>) -> (r: Result<Vec<String>, String>)
    ensures
        match r {
            Ok(v) => first_non_symbol(views(params@), params.len() as nat) is None && names(v@)
                == symbol_names(views(params@)),
            Err(e) => first_non_symbol(views(params@), params.len() as nat) is Some && e@
                == "Invalid lambda parameter: "@ + render(
                first_non_symbol(views(params@), params.len() as nat)->0,
            ),
        },
{
    let mut found: Vec<String> = Vec::new();
    let mut i: usize = 0;
    while i < params.len()
        invariant
            i <= params.len(),
            found.len() == i,
            first_non_symbol(views(params@), i as nat) is None,
            forall|j: int| 0 <= j < i ==> found[j]@ == views(params@)[j]->Symbol_0,
        decreases params.len() - i,
    {
        match &params[i] {
            Object::Symbol(s) => {
                found.push(s.clone());
            },
            other => {
                let mut message = String::from_str("Invalid lambda parameter: ");
                other.write_text(&mut message);
                proof {
                    let vs = views(params@);
                    assert(first_non_symbol(vs, (i + 1) as nat) == Some(vs[i as int]));
                    lemma_first_non_symbol_stays(vs, (i + 1) as nat, params.len() as nat);
                }
                return Err(message);
            },
        }
        i = i + 1;
    }
    assert(names(found@) =~= symbol_names(views(params@)));
    Ok(found)
}

proof fn lemma_first_non_symbol_stays(params: Seq<Value>, n: nat, m: nat)
    requires
        n <= m <= params.len(),
        first_non_symbol(params, n) is Some,
    ensures
        first_non_symbol(params, m) == first_non_symbol(params, n),
    decreases m,
{
    if m > n {
        lemma_first_non_symbol_stays(params, n, (m - 1) as nat);
    }
}

impl Machine {
    fn go(&mut self, control: Control)
        ensures
            final(self)@ == old(self)@.go(control@),
    {
        self.control = control;
    }

    fn raise(&mut self, message: String)
        ensures
            final(self)@ == old(self)@.raise(message@),
    {
        self.control = Control::Raise(message);
    }

    fn push(&mut self, frame: Frame)
        ensures
            final(self)@ == old(self)@.push(frame@),
    {
        self.frames.push(frame);
        assert(frame_views(self.frames@) =~= frame_views(old(self).frames@).push(frame@));
    }

    /// `(define <symbol> <expr>)`.
    fn define(&mut self, items: Vec<Object>)
        requires
            items.len() > 0,
        ensures
            final(self)@ == old(self)@.define(views(items@)),
    {
        let mut items = items;
        if items.len() != 3 {
            self.raise(arity_message("define", "2 arguments", items.len() - 1));
            return ;
        }
        let value = items.pop().unwrap();
        let target = items.pop().unwrap();
        match target {
            Object::Symbol(name) => {
                self.push(Frame::Define { name });
                self.go(Control::Eval(value));
            },
            other => {
                let mut message = String::from_str("define expects a symbol, but was given ");
                other.write_text(&mut message);
                self.raise(message);
            },
        }
    }

    /// `(<op> <left> <right>)`.
    fn operation(&mut self, op: Operator, items: Vec<Object>)
        requires
            items.len() > 0,
        ensures
            final(self)@ == old(self)@.operation(op, views(items@)),
    {
        let mut items = items;
        if items.len() != 3 {
            let form = join("Operator ", operator_name(op));
            self.raise(arity_message(form.as_str(), "2 operands", items.len() - 1));
            return ;
        }
        let right = items.pop().unwrap();
        let left = items.pop().unwrap();
        self.push(Frame::Left { op, right });
        self.go(Control::Eval(left));
    }

    /// `(if <cond> <then>)`.
    fn eval_if(&mut self, items: Vec<Object>)
        requires
            items.len() == 3,
        ensures
            final(self)@ == old(self)@.condition(views(items@)),
    {
        let mut items = items;
        let then = items.pop().unwrap();
        let cond = items.pop().unwrap();
        self.push(Frame::Branch { then, otherwise: None });
        self.go(Control::Eval(cond));
    }

    /// `(if <cond> <then> <else>)`.
    fn eval_if_else(&mut self, items: Vec<Object>)
        requires
            items.len() == 4,
        ensures
            final(self)@ == old(self)@.condition(views(items@)),
    {
        let mut items = items;
        let otherwise = items.pop().unwrap();
        let then = items.pop().unwrap();
        let cond = items.pop().unwrap();
        self.push(Frame::Branch { then, otherwise: Some(otherwise) });
        self.go(Control::Eval(cond));
    }

    /// `(lambda (<param>…) <body>)`.
    fn lambda(&mut self, items: Vec<Object>)
        requires
            items.len() > 0,
        ensures
            final(self)@ == old(self)@.lambda(views(items@)),
    {
        let mut items = items;
        if items.len() != 3 {
            self.raise(arity_message("lambda", "2 arguments", items.len() - 1));
            return ;
        }
        let body = items.pop().unwrap();
        let params = items.pop().unwrap();
        match params {
            Object::List(params) => {
                proof {
                    lemma_view_list(params);
                }
                match body {
                    Object::List(body) => {
                        proof {
                            lemma_view_list(body);
                        }
                        match parameter_names(&params) {
                            Ok(found) => {
                                proof {
                                    lemma_view_lambda(found, body);
                                }
                                self.go(Control::Return(Object::Lambda(found, body)));
                            },
                            Err(message) => {
                                self.raise(message);
                            },
                        }
                    },
                    other => {
                        let mut message = String::from_str("Invalid lambda body: ");
                        other.write_text(&mut message);
                        self.raise(message);
                    },
                }
            },
            other => {
                let mut message = String::from_str("Invalid lambda parameter: ");
                other.write_text(&mut message);
                self.raise(message);
            },
        }
    }

    /// The special forms. Hands the list back where `name` begins none.
    fn eval_builtin(&mut self, name: &str, items: Vec<Object>) -> (r: Option<Vec<Object>>)
        requires
            items.len() > 0,
            items[0]@ == Value::Symbol(name@),
        ensures
            match r {
                Some(back) => back == items && final(self)@ == old(self)@ && name@ != "define"@
                    && operator_named(name@) is None && name@ != "if"@ && name@ != "lambda"@,
                None => final(self)@ == old(self)@.list(views(items@)),
            },
    {
        if same_text(name, "define") {
            self.define(items);
            return None;
        }
        match operator_of(name) {
            Some(op) => {
                self.operation(op, items);
                return None;
            },
            None => {},
        }
        if same_text(name, "if") {
            if items.len() == 3 {
                self.eval_if(items);
            } else if items.len() == 4 {
                self.eval_if_else(items);
            } else {
                self.raise(arity_message("if", "2 or 3 arguments", items.len() - 1));
            }
            return None;
        }
        if same_text(name, "lambda") {
            self.lambda(items);
            return None;
        }
        Some(items)
    }

    /// Begins the body of a procedure in a new scope.
    fn enter(&mut self, params: Vec<String>, body: Vec<Object>, values: Vec<Object>)
        ensures
            final(self)@ == old(self)@.enter(names(params@), views(body@), views(values@)),
    {
        let ghost before = self.env@;
        self.env.enter();
        let mut i: usize = 0;
        while i < params.len() && i < values.len()
            invariant
                i <= params.len(),
                i <= values.len(),
                self.env@ == bind_all(
                    before.push(Map::empty()),
                    names(params@),
                    views(values@),
                    i as nat,
                ),
                self.frames == old(self).frames,
            decreases params.len() - i,
        {
            self.env.set(params[i].as_str(), values[i].clone());
            i = i + 1;
        }
        self.frames.push(Frame::Leave);
        assert(frame_views(self.frames@) =~= frame_views(old(self).frames@).push(FrameView::Leave));
        proof {
            lemma_view_list(body);
        }
        self.control = Control::Eval(Object::List(body));
    }

    /// `(<name> <arg>…)`.
    fn eval_function_call(&mut self, name: &str, items: Vec<Object>)
        requires
            items.len() > 0,
        ensures
            final(self)@ == old(self)@.call(name@, views(items@)),
    {
        let mut items = items;
        let ghost vs = views(items@);
        match self.env.get(name) {
            None => {
                self.raise(join("Unbound symbol: ", name));
            },
            Some(Object::Lambda(params, body)) => {
                proof {
                    lemma_view_lambda(params, body);
                }
                if params.len() != items.len() - 1 {
                    let mut expected = String::new();
                    push_decimal(&mut expected, params.len() as u128);
                    expected.append(" parameters");
                    self.raise(arity_message("Lambda", expected.as_str(), items.len() - 1));
                } else if params.len() == 0 {
                    let values: Vec<Object> = Vec::new();
                    assert(views(values@) =~= Seq::<Value>::empty());
                    self.enter(params, body, values);
                } else {
                    let rest = reversed_tail(&mut items, 2);
                    let first = items.pop().unwrap();
                    let values: Vec<Object> = Vec::new();
                    assert(views(values@) =~= Seq::<Value>::empty());
                    self.push(Frame::Arguments { params, body, rest, values });
                    self.go(Control::Eval(first));
                }
            },
            Some(_) => {
                self.raise(join("Trying to evaluate non-function expression: ", name));
            },
        }
    }

    /// A list: a special form, a call or a plain sequence.
    fn eval_list(&mut self, items: Vec<Object>)
        ensures
            final(self)@ == old(self)@.list(views(items@)),
    {
        if items.len() == 0 {
            self.raise(String::from_str("Empty list"));
            return ;
        }
        let head: Option<String> = match &items[0] {
            Object::Symbol(name) => Some(name.clone()),
            _ => None,
        };
        match head {
            Some(name) => {
                match self.eval_builtin(name.as_str(), items) {
                    Some(items) => {
                        self.eval_function_call(name.as_str(), items);
                    },
                    None => {},
                }
            },
            None => {
                let mut items = items;
                let rest = reversed_tail(&mut items, 1);
                let first = items.pop().unwrap();
                let done: Vec<Object> = Vec::new();
                assert(views(done@) =~= Seq::<Value>::empty());
                self.push(Frame::Sequence { rest, done });
                self.go(Control::Eval(first));
            },
        }
    }

    /// A symbol stands for the value it is bound to.
    fn eval_symbol(&mut self, name: &str)
        ensures
            final(self)@ == old(self)@.eval(Value::Symbol(name@)),
    {
        match self.env.get(name) {
            Some(value) => {
                self.go(Control::Return(value));
            },
            None => {
                self.raise(join("Unbound symbol ", name));
            },
        }
    }

    /// Begins the evaluation of one expression.
    fn eval_obj(&mut self, obj: Object)
        ensures
            final(self)@ == old(self)@.eval(obj@),
    {
        match obj {
            Object::Symbol(name) => {
                self.eval_symbol(name.as_str());
            },
            Object::Lambda(params, body) => {
                self.raise(String::from_str("Lambda not yet evaluable"));
            },
            Object::List(items) => {
                proof {
                    lemma_view_list(items);
                }
                self.eval_list(items);
            },
            other => {
                self.go(Control::Return(other));
            },
        }
    }

    /// Hands a value to a frame that was taken off the stack.
    fn resume(&mut self, frame: Frame, value: Object)
        ensures
            final(self)@ == old(self)@.resume(frame@, value@),
    {
        match frame {
            Frame::Sequence { rest, done } => {
                let mut rest = rest;
                let mut done = done;
                let ghost rest0 = views(rest@);
                let ghost done0 = views(done@);
                done.push(value);
                assert(views(done@) =~= done0.push(value@));
                match rest.pop() {
                    None => {
                        proof {
                            lemma_view_list(done);
                        }
                        self.go(Control::Return(Object::List(done)));
                    },
                    Some(next) => {
                        assert(views(rest@) =~= rest0.drop_last());
                        self.push(Frame::Sequence { rest, done });
                        self.go(Control::Eval(next));
                    },
                }
            },
            Frame::Define { name } => {
                self.env.set(name.as_str(), value);
                self.control = Control::Return(Object::Bool(true));
            },
            Frame::Left { op, right } => {
                self.push(Frame::Right { op, left: value });
                self.go(Control::Eval(right));
            },
            Frame::Right { op, left } => {
                if is_defined(op, &left, &value) {
                    self.go(binop(op, left, value));
                } else {
                    let zero = match (&op, &value) {
                        (Operator::Div, Object::Integer(0)) => true,
                        _ => false,
                    };
                    if zero {
                        self.raise(String::from_str("Division by zero"));
                    } else {
                        self.raise(String::from_str("Integer overflow"));
                    }
                }
            },
            Frame::Branch { then, otherwise } => {
                if eval_condition(&value) {
                    self.go(Control::Eval(then));
                } else {
                    match otherwise {
                        Some(e) => {
                            self.go(Control::Eval(e));
                        },
                        None => {
                            self.go(Control::Return(Object::Bool(false)));
                        },
                    }
                }
            },
            Frame::Arguments { params, body, rest, values } => {
                let mut rest = rest;
                let mut values = values;
                let ghost rest0 = views(rest@);
                let ghost values0 = views(values@);
                values.push(value);
                assert(views(values@) =~= values0.push(value@));
                match rest.pop() {
                    None => {
                        self.enter(params, body, values);
                    },
                    Some(next) => {
                        assert(views(rest@) =~= rest0.drop_last());
                        self.push(Frame::Arguments { params, body, rest, values });
                        self.go(Control::Eval(next));
                    },
                }
            },
            Frame::Leave => {
                self.env.leave();
                self.control = Control::Return(value);
            },
        }
    }

    /// Drops a frame that was taken off the stack because of an error.
    fn abandon(&mut self, frame: Frame)
        ensures
            final(self)@ == old(self)@.abandon(frame@),
    {
        match frame {
            Frame::Leave => {
                self.env.leave();
            },
            _ => {},
        }
    }

    /// A machine with nothing to do, which holds `env`.
    pub fn new(env: Env) -> (m: Machine)
        ensures
            m@ == (MachineView { env: env@, frames: Seq::empty(), control: ControlView::Halt }),
    {
        let m = Machine { env, frames: Vec::new(), control: Control::Halt };
        assert(frame_views(m.frames@) =~= Seq::<FrameView>::empty());
        m
    }

    /// A machine about to evaluate `program` in `env`.
    pub fn start(program: Object, env: Env) -> (m: Machine)
        ensures
            m@ == start(Ok(program@), env@),
    {
        let m = Machine { env, frames: Vec::new(), control: Control::Eval(program) };
        assert(frame_views(m.frames@) =~= Seq::<FrameView>::empty());
        m
    }

    /// Takes one step, and says what the host is to do next.
    pub fn step(&mut self) -> (action: Action)
        ensures
            final(self)@ == old(self)@.step().0,
            action@ == old(self)@.step().1,
    {
        let mut control = Control::Halt;
        std::mem::swap(&mut control, &mut self.control);
        match control {
            Control::Halt => Action::Idle,
            Control::Await(op, left, right) => {
                let action = Action::Compute(op, left.clone(), right.clone());
                self.control = Control::Await(op, left, right);
                action
            },
            Control::Eval(obj) => {
                self.eval_obj(obj);
                Action::Continue
            },
            Control::Return(value) => {
                let ghost frames0 = frame_views(self.frames@);
                match self.frames.pop() {
                    None => Action::Finish(Ok(value)),
                    Some(frame) => {
                        assert(frame_views(self.frames@) =~= frames0.drop_last());
                        self.resume(frame, value);
                        Action::Continue
                    },
                }
            },
            Control::Raise(message) => {
                let ghost frames0 = frame_views(self.frames@);
                match self.frames.pop() {
                    None => Action::Finish(Err(message)),
                    Some(frame) => {
                        assert(frame_views(self.frames@) =~= frames0.drop_last());
                        self.abandon(frame);
                        self.control = Control::Raise(message);
                        Action::Continue
                    },
                }
            },
        }
    }

    /// Steps until a step asks for something else than another step, but at
    /// most `fuel` times.
    pub fn run(&mut self, fuel: u64) -> (action: Action)
        ensures
            final(self)@ == old(self)@.run(fuel as nat).0,
            action@ == old(self)@.run(fuel as nat).1,
    {
        let mut left: u64 = fuel;
        while left > 0
            invariant
                old(self)@.run(fuel as nat) == self@.run(left as nat),
            decreases left,
        {
            let action = self.step();
            match action {
                Action::Continue => {},
                other => {
                    return other;
                },
            }
            left = left - 1;
        }
        Action::Continue
    }

    /// Hands in the result of the operation that the machine waits for.
    pub fn answer(&mut self, value: Object)
        ensures
            final(self)@ == old(self)@.answer(value@),
    {
        let expected: Option<Operator> = match &self.control {
            Control::Await(op, _, _) => Some(*op),
            _ => None,
        };
        match expected {
            Some(op) => {
                let fits = match &value {
                    Object::Bool(_) => is_compare(op),
                    Object::Float(_) => !is_compare(op),
                    _ => false,
                };
                if fits {
                    self.control = Control::Return(value);
                } else {
                    let mut message = join("Operator ", operator_name(op));
                    message.append(" was answered with ");
                    value.write_text(&mut message);
                    self.control = Control::Raise(message);
                }
            },
            None => {},
        }
    }

    /// Ends the machine and gives its environment back.
    pub fn into_env(self) -> (env: Env)
        ensures
            env@ == self@.env,
    {
        self.env
    }
}

/// Sets up the evaluation of the program that `tokens` spell in the
/// environment `env`. Nothing is evaluated before the first step.
pub fn eval(tokens: &Vec<Token>, env: Env) -> (m: Machine)
    ensures
        m@ == start(parse_spec(token_views(tokens@)), env@),
{
    match parse(tokens) {
        Ok(program) => Machine::start(program, env),
        Err(e) => {
            let mut m = Machine::new(env);
            m.raise(e.to_text());
            m
        },
    }
}

/// The product of two integers that does not fit in 64 bits is an error, and
/// never a wrapped value.
pub proof fn lemma_product_overflow(a: i64, b: i64)
    requires
        a * b < i64::MIN || a * b > i64::MAX,
    ensures
        defined(Operator::Mul, Value::Integer(a), Value::Integer(b)),
        apply(Operator::Mul, Value::Integer(a), Value::Integer(b)) == ControlView::Raise(
            "Integer overflow"@,
        ),
{
}

/// The product of two integers that fits in 64 bits is that product.
pub proof fn lemma_product_exact(a: i64, b: i64)
    requires
        i64::MIN <= a * b <= i64::MAX,
    ensures
        apply(Operator::Mul, Value::Integer(a), Value::Integer(b)) == ControlView::Return(
            Value::Integer((a * b) as i64),
        ),
{
}

/// An evaluation that has ended within some number of steps has the same
/// result within any greater number: more fuel never changes a result.
pub proof fn lemma_result_stable(
    m: MachineView,
    host: spec_fn(Operator, Value, Value) -> Value,
    fuel: nat,
    more: nat,
)
    requires
        fuel <= more,
        m.result(host, fuel) is Some,
    ensures
        m.result(host, more) == m.result(host, fuel),
    decreases fuel,
{
    if fuel > 0 {
        let next = m.step();
        match next.1 {
            ActionView::Continue => {
                lemma_result_stable(next.0, host, (fuel - 1) as nat, (more - 1) as nat);
            },
            ActionView::Compute(op, left, right) => {
                lemma_result_stable(
                    next.0.answer(host(op, left, right)),
                    host,
                    (fuel - 1) as nat,
                    (more - 1) as nat,
                );
            },
            _ => {},
        }
    }
}

/// What `run` ends with is the result of the evaluation, whatever the host:
/// a run that ends never asked the host for anything.
pub proof fn lemma_run_gives_result(
    m: MachineView,
    host: spec_fn(Operator, Value, Value) -> Value,
    fuel: nat,
)
    requires
        m.run(fuel).1 is Finish,
    ensures
        m.result(host, fuel) == Some(m.run(fuel).1->Finish_0),
    decreases fuel,
{
    if fuel > 0 {
        let next = m.step();
        if next.1 is Continue {
            lemma_run_gives_result(next.0, host, (fuel - 1) as nat);
        }
    }
}

/// Evaluation keeps no state but the environment it is given: the same
/// program, evaluated in two fresh environments of their own with the same
/// host, ends the same way and leaves both environments alike.
pub proof fn lemma_evaluation_repeatable(
    tokens: Seq<crate::lexer::TokenView>,
    first: Env,
    second: Env,
    host: spec_fn(Operator, Value, Value) -> Value,
    fuel: nat,
)
    requires
        first@ == seq![Map::<Seq<char>, Value>::empty()],
        second@ == seq![Map::<Seq<char>, Value>::empty()],
    ensures
        start(parse_spec(tokens), first@).result(host, fuel) == start(
            parse_spec(tokens),
            second@,
        ).result(host, fuel),
        start(parse_spec(tokens), first@).run(fuel) == start(parse_spec(tokens), second@).run(
            fuel,
        ),
{
}

} // verus!
