//! The value type of the interpreter, which is also its syntax tree.

use crate::text::{push_signed, signed_decimal};
use vstd::prelude::*;
use vstd::string::StringExecFns;

verus! {

/// A 64-bit float as the interpreter holds it: the bit pattern of the number,
/// and its decimal text. The interpreter never computes with floats itself; it
/// carries them, hands them to its host for arithmetic, and prints their text.
#[derive(Debug, PartialEq)]
pub struct Float {
    pub bits: u64,
    pub text: String,
}

pub ghost struct FloatView {
    pub bits: u64,
    pub text: Seq<char>,
}

impl View for Float {
    type V = FloatView;

    open spec fn view(&self) -> FloatView {
        FloatView { bits: self.bits, text: self.text@ }
    }
}

impl Clone for Float {
    fn clone(&self) -> (r: Self)
        ensures
            r@ == self@,
    {
        Float { bits: self.bits, text: self.text.clone() }
    }
}

#[derive(Debug, PartialEq)]
pub enum Object {
    Integer(i64),
    Float(Float),
    Bool(bool),
    String(String),
    Symbol(String),
    Lambda(Vec<String>, Vec<Object>),
    List(Vec<Object>),
}

/// The mathematical value that an `Object` stands for.
pub ghost enum Value {
    Integer(i64),
    Float(FloatView),
    Bool(bool),
    String(Seq<char>),
    Symbol(Seq<char>),
    Lambda(Seq<Seq<char>>, Seq<Value>),
    List(Seq<Value>),
}

impl View for Object {
    type V = Value;

    open spec fn view(&self) -> Value
        decreases self, 0nat,
    {
        match self {
            Object::Integer(n) => Value::Integer(*n),
            Object::Float(f) => Value::Float(f@),
            Object::Bool(b) => Value::Bool(*b),
            Object::String(s) => Value::String(s@),
            Object::Symbol(s) => Value::Symbol(s@),
            Object::Lambda(params, body) => Value::Lambda(
                names(params@),
                first_views(*body, body.len() as nat),
            ),
            Object::List(items) => Value::List(first_views(*items, items.len() as nat)),
        }
    }
}

/// The values of the first `n` objects of `items`, in order.
pub open spec fn first_views(items: Vec<Object>, n: nat) -> Seq<Value>
    decreases items, n,
{
    if n == 0 || n > items.len() {
        Seq::empty()
    } else {
        first_views(items, (n - 1) as nat).push(items[n - 1].view())
    }
}

/// The values of a sequence of objects, in order.
pub open spec fn views(items: Seq<Object>) -> Seq<Value> {
    Seq::new(items.len(), |i: int| items[i]@)
}

/// The texts of a sequence of strings, in order.
pub open spec fn names(items: Seq<String>) -> Seq<Seq<char>> {
    Seq::new(items.len(), |i: int| items[i]@)
}

proof fn lemma_first_views(items: Vec<Object>, n: nat)
    requires
        n <= items.len(),
    ensures
        first_views(items, n) == views(items@.take(n as int)),
    decreases n,
{
    if n > 0 {
        lemma_first_views(items, (n - 1) as nat);
        let a = first_views(items, n);
        let b = views(items@.take(n as int));
        assert(a == views(items@.take(n - 1)).push(items[n - 1]@));
        assert(a.len() == b.len());
        assert forall|i: int| 0 <= i < a.len() implies a[i] == b[i] by {
            if i < n - 1 {
                assert(views(items@.take(n - 1))[i] == items@.take(n - 1)[i]@);
            }
        }
        assert(a =~= b);
    } else {
        assert(first_views(items, n) =~= views(items@.take(n as int)));
    }
}

pub proof fn lemma_view_list(items: Vec<Object>)
    ensures
        Object::List(items)@ == Value::List(views(items@)),
{
    lemma_first_views(items, items.len() as nat);
    assert(items@.take(items.len() as int) == items@);
}

pub proof fn lemma_view_lambda(params: Vec<String>, body: Vec<Object>)
    ensures
        Object::Lambda(params, body)@ == Value::Lambda(names(params@), views(body@)),
{
    lemma_first_views(body, body.len() as nat);
    assert(body@.take(body.len() as int) == body@);
}

/// A copy of each string of `items`.
pub fn clone_names(items: &Vec<String>) -> (r: Vec<String>)
    ensures
        names(r@) == names(items@),
{
    let mut r: Vec<String> = Vec::new();
    let mut i: usize = 0;
    while i < items.len()
        invariant
            i <= items.len(),
            r.len() == i,
            forall|j: int| 0 <= j < i ==> r[j]@ == items[j]@,
        decreases items.len() - i,
    {
        r.push(items[i].clone());
        i = i + 1;
    }
    assert(names(r@) =~= names(items@));
    r
}

/// A copy of each object of `items`.
pub fn clone_all(items: &Vec<Object>) -> (r: Vec<Object>)
    ensures
        views(r@) == views(items@),
    decreases items,
{
    let mut r: Vec<Object> = Vec::new();
    let mut i: usize = 0;
    while i < items.len()
        invariant
            i <= items.len(),
            r.len() == i,
            forall|j: int| 0 <= j < i ==> r[j]@ == items[j]@,
        decreases items.len() - i,
    {
        r.push(items[i].clone());
        i = i + 1;
    }
    assert(views(r@) =~= views(items@));
    r
}

impl Clone for Object {
    fn clone(&self) -> (r: Self)
        ensures
            r@ == self@,
        decreases self,
    {
        match self {
            Object::Integer(n) => Object::Integer(*n),
            Object::Float(f) => Object::Float(f.clone()),
            Object::Bool(b) => Object::Bool(*b),
            Object::String(s) => Object::String(s.clone()),
            Object::Symbol(s) => Object::Symbol(s.clone()),
            Object::Lambda(params, body) => {
                let p = clone_names(params);
                let b = clone_all(body);
                proof {
                    lemma_view_lambda(p, b);
                    lemma_view_lambda(*params, *body);
                }
                Object::Lambda(p, b)
            },
            Object::List(items) => {
                let v = clone_all(items);
                proof {
                    lemma_view_list(v);
                    lemma_view_list(*items);
                }
                Object::List(v)
            },
        }
    }
}

/// The first `n` parameter names of a procedure as they are printed, with a
/// comma and a space between neighbours.
pub open spec fn render_params(params: Seq<Seq<char>>, n: nat) -> Seq<char>
    decreases n,
{
    if n == 0 || n > params.len() {
        Seq::empty()
    } else if n == 1 {
        params[0]
    } else {
        render_params(params, (n - 1) as nat) + ", "@ + params[n - 1]
    }
}

/// The printed form of a value.
pub open spec fn render(v: Value) -> Seq<char>
    decreases v, 0nat,
{
    match v {
        Value::Integer(n) => signed_decimal(n as int),
        Value::Float(f) => f.text,
        Value::Bool(b) => if b {
            "true"@
        } else {
            "false"@
        },
        Value::String(s) => seq!['"'] + s + seq!['"'],
        Value::Symbol(s) => s,
        Value::Lambda(params, _) => "lambda ("@ + render_params(params, params.len()) + ")"@,
        Value::List(items) => seq!['('] + render_items(items, items.len()) + seq![')'],
    }
}

/// The printed forms of the first `n` values of `items`, with one space
/// between neighbours.
pub open spec fn render_items(items: Seq<Value>, n: nat) -> Seq<char>
    decreases items, n,
{
    if n == 0 || n > items.len() {
        Seq::empty()
    } else if n == 1 {
        render(items[0])
    } else {
        render_items(items, (n - 1) as nat) + " "@ + render(items[n - 1])
    }
}

/// Appends the printed forms of `items` to `out`, with one space between
/// neighbours.
pub fn write_items(items: &Vec<Object>, out: &mut String)
    ensures
        final(out)@ == old(out)@ + render_items(views(items@), items.len() as nat),
    decreases items,
{
    let ghost start = out@;
    let mut i: usize = 0;
    while i < items.len()
        invariant
            i <= items.len(),
            out@ == start + render_items(views(items@), i as nat),
        decreases items.len() - i,
    {
        if i > 0 {
            out.append(" ");
        }
        items[i].write_text(out);
        i = i + 1;
        assert(out@ == start + render_items(views(items@), i as nat));
    }
}

impl Object {
    /// Appends the printed form of the object to `out`.
    pub fn write_text(&self, out: &mut String)
        ensures
            final(out)@ == old(out)@ + render(self@),
        decreases self,
    {
        let ghost start = out@;
        match self {
            Object::Integer(n) => {
                push_signed(out, *n);
            },
            Object::Float(f) => {
                out.append(f.text.as_str());
            },
            Object::Bool(b) => {
                if *b {
                    out.append("true");
                } else {
                    out.append("false");
                }
            },
            Object::String(s) => {
                out.push('"');
                out.append(s.as_str());
                out.push('"');
                assert(out@ == start + render(self@));
            },
            Object::Symbol(s) => {
                out.append(s.as_str());
            },
            Object::Lambda(params, body) => {
                proof {
                    lemma_view_lambda(*params, *body);
                }
                out.append("lambda (");
                let mut i: usize = 0;
                while i < params.len()
                    invariant
                        i <= params.len(),
                        out@ == start + "lambda ("@ + render_params(names(params@), i as nat),
                    decreases params.len() - i,
                {
                    if i > 0 {
                        out.append(", ");
                    }
                    out.append(params[i].as_str());
                    i = i + 1;
                    assert(out@ == start + "lambda ("@ + render_params(names(params@), i as nat));
                }
                out.append(")");
                assert(out@ == start + render(self@));
            },
            Object::List(items) => {
                proof {
                    lemma_view_list(*items);
                }
                out.push('(');
                write_items(items, out);
                out.push(')');
                assert(out@ == start + render(self@));
            },
        }
    }

    /// The printed form of the object.
    pub fn to_text(&self) -> (s: String)
        ensures
            s@ == render(self@),
    {
        let mut s = String::new();
        self.write_text(&mut s);
        s
    }
}

} // verus!
