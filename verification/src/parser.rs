//! The parser: from tokens to one symbolic-expression tree.

use crate::lexer::{token_views, Token, TokenView};
use crate::object::{lemma_view_list, views, Object, Value};
use crate::text::{push_signed, push_with_fraction, quote, quoted, signed_decimal, with_fraction};
use vstd::prelude::*;
use vstd::string::StringExecFns;

verus! {

#[derive(Debug)]
pub struct ParseError {
    err: String,
}

impl View for ParseError {
    type V = Seq<char>;

    /// What went wrong, without the prefix that `to_text` puts before it.
    closed spec fn view(&self) -> Seq<char> {
        self.err@
    }
}

impl Clone for ParseError {
    fn clone(&self) -> (r: Self)
        ensures
            r@ == self@,
    {
        ParseError { err: self.err.clone() }
    }
}

impl ParseError {
    pub fn new(err: &str) -> (r: ParseError)
        ensures
            r@ == err@,
    {
        ParseError { err: String::from_str(err) }
    }

    /// The message as it is shown to the user.
    pub fn to_text(&self) -> (s: String)
        ensures
            s@ == "Parse error: "@ + self@,
    {
        let mut s = String::from_str("Parse error: ");
        s.append(self.err.as_str());
        s
    }
}

/// How a token is named in a message: by its kind and, in parentheses,
/// what it holds. A text is quoted, and a float has a fraction.
pub open spec fn describe(t: TokenView) -> Seq<char> {
    match t {
        TokenView::Integer(n) => "Integer("@ + signed_decimal(n as int) + ")"@,
        TokenView::Float(f) => "Float("@ + with_fraction(f.text) + ")"@,
        TokenView::String(s) => "String("@ + quoted(s) + ")"@,
        TokenView::Symbol(s) => "Symbol("@ + quoted(s) + ")"@,
        TokenView::LParen => "LParen"@,
        TokenView::RParen => "RParen"@,
        TokenView::LexerError(s) => "LexerError("@ + quoted(s) + ")"@,
    }
}

/// The message for a program that does not start with a left parenthesis.
pub open spec fn expected_paren(tokens: Seq<TokenView>) -> Seq<char> {
    if tokens.len() == 0 {
        "Excepted Left Paren, found None"@
    } else {
        "Excepted Left Paren, found Some("@ + describe(tokens[0]) + ")"@
    }
}

/// The atom that a token stands for. Parentheses and errors stand for none.
pub open spec fn atom(t: TokenView) -> Value {
    match t {
        TokenView::Integer(n) => Value::Integer(n),
        TokenView::Float(f) => Value::Float(f),
        TokenView::String(s) => Value::String(s),
        TokenView::Symbol(s) => Value::Symbol(s),
        _ => Value::Bool(false),
    }
}

/// `stack` with `v` appended to its innermost list.
pub open spec fn with_item(stack: Seq<Seq<Value>>, v: Value) -> Seq<Seq<Value>> {
    stack.drop_last().push(stack.last().push(v))
}

/// The tree read from `tokens[pos..]`, where `stack` holds the lists that are
/// open at `pos`, outermost first, each with the items read so far. An atom
/// joins the innermost list; a left parenthesis opens a list; a right
/// parenthesis closes the innermost list, which is the result if it was the
/// only one and else joins the list around it. Reading stops there: what
/// follows the closing parenthesis of the outermost list is not looked at.
pub open spec fn parse_from(tokens: Seq<TokenView>, pos: int, stack: Seq<Seq<Value>>) -> Result<
    Value,
    Seq<char>,
>
    decreases tokens.len() - pos,
{
    if pos < 0 || pos >= tokens.len() || stack.len() == 0 {
        Err("Encountered an unexpected EOF !"@)
    } else {
        match tokens[pos] {
            TokenView::LParen => parse_from(tokens, pos + 1, stack.push(Seq::empty())),
            TokenView::RParen => if stack.len() == 1 {
                Ok(Value::List(stack[0]))
            } else {
                parse_from(tokens, pos + 1, with_item(stack.drop_last(), Value::List(stack.last())))
            },
            TokenView::LexerError(e) => Err(e),
            t => parse_from(tokens, pos + 1, with_item(stack, atom(t))),
        }
    }
}

/// The tree that a token sequence denotes, or why it denotes none.
pub open spec fn parse_spec(tokens: Seq<TokenView>) -> Result<Value, Seq<char>> {
    if tokens.len() > 0 && tokens[0] is LParen {
        parse_from(tokens, 1, seq![Seq::empty()])
    } else {
        Err(expected_paren(tokens))
    }
}

pub open spec fn outcome(r: Result<Object, ParseError>) -> Result<Value, Seq<char>> {
    match r {
        Ok(o) => Ok(o@),
        Err(e) => Err(e@),
    }
}

pub open spec fn stack_view(stack: Seq<Vec<Object>>) -> Seq<Seq<Value>> {
    Seq::new(stack.len(), |i: int| views(stack[i]@))
}

fn describe_token(t: &Token) -> (s: String)
    ensures
        s@ == describe(t@),
{
    match t {
        Token::Integer(n) => {
            let mut s = String::from_str("Integer(");
            push_signed(&mut s, *n);
            s.append(")");
            s
        },
        Token::Float(f) => {
            let mut s = String::from_str("Float(");
            push_with_fraction(&mut s, f.text.as_str());
            s.append(")");
            s
        },
        Token::String(text) => {
            let mut s = String::from_str("String(");
            s.append(quote(text.as_str()).as_str());
            s.append(")");
            s
        },
        Token::Symbol(text) => {
            let mut s = String::from_str("Symbol(");
            s.append(quote(text.as_str()).as_str());
            s.append(")");
            s
        },
        Token::LParen => String::from_str("LParen"),
        Token::RParen => String::from_str("RParen"),
        Token::LexerError(text) => {
            let mut s = String::from_str("LexerError(");
            s.append(quote(text.as_str()).as_str());
            s.append(")");
            s
        },
    }
}

fn push_item(stack: &mut Vec<Vec<Object>>, item: Object)
    requires
        old(stack).len() > 0,
    ensures
        stack_view(final(stack)@) == with_item(stack_view(old(stack)@), item@),
{
    let ghost before = stack_view(stack@);
    let mut top = stack.pop().unwrap();
    top.push(item);
    stack.push(top);
    assert(stack_view(stack@) =~= with_item(before, item@)) by {
        assert(stack_view(stack@).last() =~= before.last().push(item@));
    }
}

/// Reads the items of a list whose left parenthesis is `tokens[0]`, up to the
/// right parenthesis that closes it.
fn parse_list(tokens: &Vec<Token>) -> (r: Result<Object, ParseError>)
    requires
        tokens.len() > 0,
    ensures
        outcome(r) == parse_from(token_views(tokens@), 1, seq![Seq::empty()]),
{
    let ghost tv = token_views(tokens@);
    let mut stack: Vec<Vec<Object>> = Vec::new();
    stack.push(Vec::new());
    assert(stack_view(stack@) =~= seq![Seq::<Value>::empty()]) by {
        assert(stack_view(stack@)[0] =~= Seq::<Value>::empty());
    }
    let mut pos: usize = 1;
    while pos < tokens.len()
        invariant
            1 <= pos <= tokens.len(),
            stack.len() > 0,
            tv == token_views(tokens@),
            parse_from(tv, pos as int, stack_view(stack@)) == parse_from(
                tv,
                1,
                seq![Seq::empty()],
            ),
        decreases tokens.len() - pos,
    {
        let ghost before = stack_view(stack@);
        assert(tv[pos as int] == tokens[pos as int]@);
        match &tokens[pos] {
            Token::LParen => {
                stack.push(Vec::new());
                assert(stack_view(stack@) =~= before.push(Seq::empty())) by {
                    assert(stack_view(stack@).last() =~= Seq::<Value>::empty());
                }
            },
            Token::RParen => {
                let top = stack.pop().unwrap();
                let done = Object::List(top);
                proof {
                    lemma_view_list(top);
                    assert(stack_view(stack@) =~= before.drop_last());
                }
                if stack.len() == 0 {
                    return Ok(done);
                }
                push_item(&mut stack, done);
            },
            Token::LexerError(e) => {
                return Err(ParseError::new(e.as_str()));
            },
            Token::Integer(n) => {
                push_item(&mut stack, Object::Integer(*n));
            },
            Token::Float(f) => {
                push_item(&mut stack, Object::Float(f.clone()));
            },
            Token::String(s) => {
                push_item(&mut stack, Object::String(s.clone()));
            },
            Token::Symbol(s) => {
                push_item(&mut stack, Object::Symbol(s.clone()));
            },
        }
        pos = pos + 1;
    }
    Err(ParseError::new("Encountered an unexpected EOF !"))
}

/// Reads one program, which is one list, from its tokens.
pub fn parse(tokens: &Vec<Token>) -> (r: Result<Object, ParseError>)
    ensures
        outcome(r) == parse_spec(token_views(tokens@)),
{
    if tokens.len() == 0 {
        return Err(ParseError::new("Excepted Left Paren, found None"));
    }
    assert(token_views(tokens@)[0] == tokens[0]@);
    match &tokens[0] {
        Token::LParen => parse_list(tokens),
        other => {
            let mut message = String::from_str("Excepted Left Paren, found Some(");
            message.append(describe_token(other).as_str());
            message.append(")");
            Err(ParseError::new(message.as_str()))
        },
    }
}

/// A program that does not start with a left parenthesis is refused.
pub proof fn lemma_program_is_a_list(tokens: Seq<TokenView>)
    requires
        tokens.len() == 0 || !(tokens[0] is LParen),
    ensures
        parse_spec(tokens) is Err,
{
}

proof fn lemma_parse_from_is_list(tokens: Seq<TokenView>, pos: int, stack: Seq<Seq<Value>>)
    ensures
        parse_from(tokens, pos, stack) is Ok ==> parse_from(tokens, pos, stack)->Ok_0 is List,
    decreases tokens.len() - pos,
{
    if 0 <= pos < tokens.len() && stack.len() > 0 {
        match tokens[pos] {
            TokenView::LParen => {
                lemma_parse_from_is_list(tokens, pos + 1, stack.push(Seq::empty()));
            },
            TokenView::RParen => {
                if stack.len() > 1 {
                    lemma_parse_from_is_list(
                        tokens,
                        pos + 1,
                        with_item(stack.drop_last(), Value::List(stack.last())),
                    );
                }
            },
            TokenView::LexerError(e) => {},
            t => {
                lemma_parse_from_is_list(tokens, pos + 1, with_item(stack, atom(t)));
            },
        }
    }
}

/// What the parser accepts is always a list.
pub proof fn lemma_parsed_is_list(tokens: Seq<TokenView>)
    ensures
        parse_spec(tokens) is Ok ==> parse_spec(tokens)->Ok_0 is List,
{
    lemma_parse_from_is_list(tokens, 1, seq![Seq::<Value>::empty()]);
}

/// The values that stand for program text: the four kinds of atoms that a
/// token can be, and lists of such values.
pub open spec fn is_syntax(v: Value) -> bool
    decreases v,
{
    match v {
        Value::Integer(_) => true,
        Value::Float(_) => true,
        Value::String(_) => true,
        Value::Symbol(_) => true,
        Value::List(items) => forall|i: int| 0 <= i < items.len() ==> is_syntax(#[trigger] items[i]),
        _ => false,
    }
}

/// The tokens that spell a value.
pub open spec fn tokens_of(v: Value) -> Seq<TokenView>
    decreases v, 0nat,
{
    match v {
        Value::Integer(n) => seq![TokenView::Integer(n)],
        Value::Float(f) => seq![TokenView::Float(f)],
        Value::String(s) => seq![TokenView::String(s)],
        Value::Symbol(s) => seq![TokenView::Symbol(s)],
        Value::List(items) => seq![TokenView::LParen] + tokens_of_items(items, items.len())
            + seq![TokenView::RParen],
        _ => Seq::empty(),
    }
}

/// The tokens that spell the first `n` values of `items`, one after the
/// other.
pub open spec fn tokens_of_items(items: Seq<Value>, n: nat) -> Seq<TokenView>
    decreases items, n,
{
    if n == 0 || n > items.len() {
        Seq::empty()
    } else {
        tokens_of_items(items, (n - 1) as nat) + tokens_of(items[n - 1])
    }
}

proof fn lemma_reads_item(tokens: Seq<TokenView>, pos: int, stack: Seq<Seq<Value>>, v: Value)
    requires
        is_syntax(v),
        stack.len() > 0,
        0 <= pos,
        pos + tokens_of(v).len() <= tokens.len(),
        tokens.subrange(pos, pos + tokens_of(v).len()) == tokens_of(v),
    ensures
        parse_from(tokens, pos, stack) == parse_from(
            tokens,
            pos + tokens_of(v).len(),
            with_item(stack, v),
        ),
    decreases v, 0nat,
{
    let spelled = tokens_of(v);
    assert(spelled.len() > 0);
    assert(tokens[pos] == tokens.subrange(pos, pos + spelled.len())[0]);
    match v {
        Value::List(items) => {
            let inner = tokens_of_items(items, items.len());
            let count = inner.len() as int;
            assert(spelled[0] == TokenView::LParen);
            assert(spelled.len() == inner.len() + 2);
            let opened = stack.push(Seq::empty());
            assert(tokens.subrange(pos + 1, pos + 1 + count) == inner) by {
                assert(tokens.subrange(pos + 1, pos + 1 + count) =~= spelled.subrange(
                    1,
                    1 + count,
                ));
                assert(spelled.subrange(1, 1 + count) =~= inner);
            }
            lemma_reads_items(tokens, pos + 1, opened, items, items.len());
            let filled = opened.drop_last().push(opened.last() + items.take(items.len() as int));
            assert(items.take(items.len() as int) == items);
            assert(filled =~= stack.push(items));
            let close = pos + 1 + count;
            assert(tokens[close] == tokens.subrange(pos, pos + spelled.len())[close - pos]);
            assert(spelled[close - pos] == TokenView::RParen);
            assert(filled.drop_last() == stack);
        },
        _ => {},
    }
}

proof fn lemma_reads_items(
    tokens: Seq<TokenView>,
    pos: int,
    stack: Seq<Seq<Value>>,
    items: Seq<Value>,
    n: nat,
)
    requires
        is_syntax(Value::List(items)),
        n <= items.len(),
        stack.len() > 0,
        0 <= pos,
        pos + tokens_of_items(items, n).len() <= tokens.len(),
        tokens.subrange(pos, pos + tokens_of_items(items, n).len()) == tokens_of_items(items, n),
    ensures
        parse_from(tokens, pos, stack) == parse_from(
            tokens,
            pos + tokens_of_items(items, n).len(),
            stack.drop_last().push(stack.last() + items.take(n as int)),
        ),
    decreases items, n,
{
    if n == 0 {
        assert(stack.drop_last().push(stack.last() + items.take(0)) =~= stack) by {
            assert(stack.last() + items.take(0) =~= stack.last());
        }
    } else {
        let before = tokens_of_items(items, (n - 1) as nat);
        let item = items[n - 1];
        let spelled = tokens_of(item);
        let all = tokens_of_items(items, n);
        assert(all == before + spelled);
        assert(tokens.subrange(pos, pos + before.len()) == before) by {
            assert(tokens.subrange(pos, pos + before.len()) =~= all.subrange(
                0,
                before.len() as int,
            ));
            assert(all.subrange(0, before.len() as int) =~= before);
        }
        lemma_reads_items(tokens, pos, stack, items, (n - 1) as nat);
        let middle = stack.drop_last().push(stack.last() + items.take(n - 1));
        assert(tokens.subrange(pos + before.len(), pos + before.len() + spelled.len()) == spelled)
            by {
            assert(tokens.subrange(pos + before.len(), pos + before.len() + spelled.len())
                =~= all.subrange(before.len() as int, all.len() as int));
            assert(all.subrange(before.len() as int, all.len() as int) =~= spelled);
        }
        assert(is_syntax(item)) by {
            let whole = Value::List(items);
            assert(whole->List_0 == items);
            assert(forall|i: int| 0 <= i < items.len() ==> is_syntax(#[trigger] items[i]));
            assert(is_syntax(items[n - 1]));
        }
        lemma_reads_item(tokens, pos + before.len(), middle, item);
        assert(with_item(middle, item) =~= stack.drop_last().push(
            stack.last() + items.take(n as int),
        )) by {
            assert(middle.last().push(item) =~= stack.last() + items.take(n as int));
        }
    }
}

/// Reading is the inverse of spelling: the tokens that spell a list, with
/// anything at all after them, are read as that list.
pub proof fn lemma_reads_what_is_spelled(v: Value, rest: Seq<TokenView>)
    requires
        v is List,
        is_syntax(v),
    ensures
        parse_spec(tokens_of(v) + rest) == Ok::<Value, Seq<char>>(v),
{
    let items = v->List_0;
    let spelled = tokens_of(v);
    let tokens = spelled + rest;
    let inner = tokens_of_items(items, items.len());
    let count = inner.len() as int;
    assert(tokens[0] == spelled[0]);
    let opened = seq![Seq::<Value>::empty()];
    assert(tokens.subrange(1, 1 + count) == inner) by {
        assert(tokens.subrange(1, 1 + count) =~= spelled.subrange(1, 1 + count));
        assert(spelled.subrange(1, 1 + count) =~= inner);
    }
    lemma_reads_items(tokens, 1, opened, items, items.len());
    let filled = opened.drop_last().push(opened.last() + items.take(items.len() as int));
    assert(items.take(items.len() as int) == items);
    assert(filled =~= seq![items]);
    assert(tokens[1 + count] == spelled[1 + count]);
}

/// The tokens read so far when the lists of the first `k` levels of `stack`
/// are open: for each level a left parenthesis and the items it holds.
pub open spec fn tokens_of_open(stack: Seq<Seq<Value>>, k: nat) -> Seq<TokenView>
    decreases k,
{
    if k == 0 || k > stack.len() {
        Seq::empty()
    } else {
        tokens_of_open(stack, (k - 1) as nat) + seq![TokenView::LParen] + tokens_of_items(
            stack[k - 1],
            stack[k - 1].len(),
        )
    }
}

proof fn lemma_tokens_of_items_prefix(a: Seq<Value>, b: Seq<Value>, n: nat)
    requires
        n <= a.len(),
        n <= b.len(),
        forall|i: int| 0 <= i < n ==> a[i] == b[i],
    ensures
        tokens_of_items(a, n) == tokens_of_items(b, n),
    decreases n,
{
    if n > 0 {
        lemma_tokens_of_items_prefix(a, b, (n - 1) as nat);
    }
}

proof fn lemma_tokens_of_open_prefix(a: Seq<Seq<Value>>, b: Seq<Seq<Value>>, k: nat)
    requires
        k <= a.len(),
        k <= b.len(),
        forall|i: int| 0 <= i < k ==> a[i] == b[i],
    ensures
        tokens_of_open(a, k) == tokens_of_open(b, k),
    decreases k,
{
    if k > 0 {
        lemma_tokens_of_open_prefix(a, b, (k - 1) as nat);
    }
}

/// An item joins the innermost open list: its tokens follow those read so
/// far.
proof fn lemma_tokens_with_item(stack: Seq<Seq<Value>>, v: Value)
    requires
        stack.len() > 0,
    ensures
        tokens_of_open(with_item(stack, v), stack.len()) == tokens_of_open(stack, stack.len())
            + tokens_of(v),
{
    let k = stack.len();
    let after = with_item(stack, v);
    let last = stack.last();
    lemma_tokens_of_open_prefix(after, stack, (k - 1) as nat);
    lemma_tokens_of_items_prefix(last.push(v), last, last.len());
    assert(after[k - 1] == last.push(v));
    let head = tokens_of_open(stack, (k - 1) as nat) + seq![TokenView::LParen];
    let items = tokens_of_items(last, last.len());
    assert(tokens_of_items(last.push(v), last.len() + 1) == items + tokens_of(v));
    assert(head + (items + tokens_of(v)) =~= (head + items) + tokens_of(v));
}

pub open spec fn all_syntax(stack: Seq<Seq<Value>>) -> bool {
    forall|i: int, j: int|
        0 <= i < stack.len() && 0 <= j < stack[i].len() ==> is_syntax(#[trigger] stack[i][j])
}

proof fn lemma_spelled_is_read(tokens: Seq<TokenView>, pos: int, stack: Seq<Seq<Value>>)
    requires
        0 <= pos,
        stack.len() > 0,
        all_syntax(stack),
        pos <= tokens.len(),
        tokens.take(pos) == tokens_of_open(stack, stack.len()),
        parse_from(tokens, pos, stack) is Ok,
    ensures
        ({
            let v = parse_from(tokens, pos, stack)->Ok_0;
            &&& v is List
            &&& is_syntax(v)
            &&& tokens_of(v).len() <= tokens.len()
            &&& tokens.take(tokens_of(v).len() as int) == tokens_of(v)
        }),
    decreases tokens.len() - pos,
{
    let k = stack.len();
    let read = tokens_of_open(stack, k);
    assert(tokens.take(pos + 1) =~= tokens.take(pos).push(tokens[pos]));
    match tokens[pos] {
        TokenView::LParen => {
            let opened = stack.push(Seq::empty());
            lemma_tokens_of_open_prefix(opened, stack, k);
            assert(tokens_of_open(opened, k + 1) =~= read.push(TokenView::LParen));
            lemma_spelled_is_read(tokens, pos + 1, opened);
        },
        TokenView::RParen => {
            let items = stack.last();
            let done = Value::List(items);
            assert(is_syntax(done)) by {
                assert forall|j: int| 0 <= j < items.len() implies is_syntax(
                    #[trigger] items[j],
                ) by {
                    assert(is_syntax(stack[k - 1][j]));
                }
            }
            let below = tokens_of_open(stack, (k - 1) as nat);
            let inner = tokens_of_items(items, items.len());
            assert(tokens_of(done) == seq![TokenView::LParen] + inner + seq![TokenView::RParen]);
            if k == 1 {
                assert(below.len() == 0);
                assert(tokens.take(pos + 1) =~= tokens_of(done));
            } else {
                let outer = stack.drop_last();
                lemma_tokens_of_open_prefix(outer, stack, (k - 1) as nat);
                lemma_tokens_with_item(outer, done);
                let joined = with_item(outer, done);
                assert(tokens_of_open(joined, joined.len()) =~= tokens.take(pos + 1)) by {
                    assert(read == below + seq![TokenView::LParen] + inner);
                    assert(below + (seq![TokenView::LParen] + inner + seq![TokenView::RParen])
                        =~= (below + seq![TokenView::LParen] + inner).push(TokenView::RParen));
                }
                assert(all_syntax(joined)) by {
                    assert forall|i: int, j: int|
                        0 <= i < joined.len() && 0 <= j < joined[i].len() implies is_syntax(
                        #[trigger] joined[i][j],
                    ) by {
                        if i < joined.len() - 1 {
                            assert(joined[i][j] == stack[i][j]);
                        } else if j < outer.last().len() {
                            assert(joined[i][j] == stack[k - 2][j]);
                        }
                    }
                }
                lemma_spelled_is_read(tokens, pos + 1, joined);
            }
        },
        TokenView::LexerError(_) => {},
        t => {
            let v = atom(t);
            assert(tokens_of(v) == seq![t]);
            lemma_tokens_with_item(stack, v);
            let joined = with_item(stack, v);
            assert(tokens_of_open(joined, joined.len()) =~= tokens.take(pos + 1));
            assert(all_syntax(joined)) by {
                assert forall|i: int, j: int|
                    0 <= i < joined.len() && 0 <= j < joined[i].len() implies is_syntax(
                    #[trigger] joined[i][j],
                ) by {
                    if i < joined.len() - 1 || j < stack.last().len() {
                        assert(joined[i][j] == stack[i][j]);
                    }
                }
            }
            lemma_spelled_is_read(tokens, pos + 1, joined);
        },
    }
}

/// What is read was spelled: a list that the parser makes of some tokens is
/// such that the tokens begin with the tokens that spell it.
pub proof fn lemma_reads_only_what_is_spelled(tokens: Seq<TokenView>)
    requires
        parse_spec(tokens) is Ok,
    ensures
        ({
            let v = parse_spec(tokens)->Ok_0;
            &&& v is List
            &&& is_syntax(v)
            &&& tokens_of(v).len() <= tokens.len()
            &&& tokens.take(tokens_of(v).len() as int) == tokens_of(v)
        }),
{
    let opened = seq![Seq::<Value>::empty()];
    assert(tokens_of_open(opened, 1) =~= seq![TokenView::LParen]) by {
        assert(tokens_of_open(opened, 0) =~= Seq::<TokenView>::empty());
        assert(tokens_of_items(opened[0], 0) =~= Seq::<TokenView>::empty());
    }
    assert(tokens.take(1) =~= seq![tokens[0]]);
    lemma_spelled_is_read(tokens, 1, opened);
}

} // verus!
