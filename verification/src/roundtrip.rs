//! Reading undoes printing: the text that a tree prints as is read back as
//! the same tree.

use crate::lexer::{
    lemma_space_is_skipped, quote_from, scan, skip_spaces, tokens_from, word_end, LexState,
    TokenView,
};
use crate::object::{render, render_items, Value};
use crate::parser::{
    is_syntax, lemma_reads_what_is_spelled, parse_spec, tokens_of, tokens_of_items,
};
use crate::text::{
    decimal, is_break, is_digit, is_space, lemma_decimal_digits, lemma_integer_round_trip,
    parsed_integer, signed_decimal,
};
use vstd::prelude::*;

verus! {

/// A text that is read as a symbol: a word that is no integer.
pub open spec fn is_word(w: Seq<char>) -> bool {
    &&& w.len() > 0
    &&& forall|i: int| 0 <= i < w.len() ==> !is_break(#[trigger] w[i]) && w[i] != '"'
    &&& parsed_integer(w) is None
}

/// The trees whose text the tokenizer reads back without its host: lists of
/// integers, of symbols that are words, and of strings that hold no double
/// quote.
pub open spec fn is_plain(v: Value) -> bool
    decreases v,
{
    match v {
        Value::Integer(_) => true,
        Value::String(s) => forall|i: int| 0 <= i < s.len() ==> #[trigger] s[i] != '"',
        Value::Symbol(w) => is_word(w),
        Value::List(items) => forall|i: int| 0 <= i < items.len() ==> is_plain(#[trigger] items[i]),
        _ => false,
    }
}

/// The tokenizer at `pos` in `input`, with no error behind it.
pub open spec fn at(input: Seq<char>, pos: int) -> LexState {
    LexState { input, pos, failed: false }
}

/// Whether a token can end at `e`: the text ends there, or white space or a
/// parenthesis follows.
pub open spec fn ends_at(t: Seq<char>, e: int) -> bool {
    e == t.len() || (0 <= e < t.len() && is_break(t[e]))
}

proof fn lemma_word_runs(t: Seq<char>, i: int, e: int)
    requires
        0 <= i <= e <= t.len(),
        forall|j: int| i <= j < e ==> !is_break(#[trigger] t[j]) && t[j] != '"',
        ends_at(t, e),
    ensures
        word_end(t, i) == e,
    decreases e - i,
{
    if i < e {
        lemma_word_runs(t, i + 1, e);
    }
}

proof fn lemma_quote_runs(t: Seq<char>, i: int, q: int)
    requires
        0 <= i <= q < t.len(),
        t[q] == '"',
        forall|j: int| i <= j < q ==> #[trigger] t[j] != '"',
    ensures
        quote_from(t, i) == q,
    decreases q - i,
{
    if i < q {
        lemma_quote_runs(t, i + 1, q);
    }
}

/// One step from a place where a token begins.
proof fn lemma_next_step(t: Seq<char>, p: int)
    requires
        0 <= p <= t.len(),
        scan(at(t, p)).0 is Some,
        0 <= scan(at(t, p)).1.pos <= t.len(),
    ensures
        tokens_from(at(t, p)) == seq![scan(at(t, p)).0->0] + tokens_from(scan(at(t, p)).1),
{
}

proof fn lemma_printed_atom(t: Seq<char>, p: int, v: Value)
    requires
        is_plain(v),
        !(v is List),
        0 <= p,
        p + render(v).len() <= t.len(),
        t.subrange(p, p + render(v).len()) == render(v),
        ends_at(t, p + render(v).len()),
    ensures
        tokens_of(v).len() == 1,
        scan(at(t, p)) == (Some(tokens_of(v)[0]), at(t, p + render(v).len())),
{
    let text = render(v);
    let count = text.len() as int;
    let e = p + count;
    assert forall|j: int| p <= j < e implies t[j] == text[j - p] by {
        assert(t.subrange(p, e)[j - p] == t[j]);
    }
    match v {
        Value::Integer(n) => {
            let magnitude = if n < 0 {
                (-n) as nat
            } else {
                n as nat
            };
            lemma_decimal_digits(magnitude);
            lemma_integer_round_trip(n);
            assert forall|j: int| 0 <= j < count implies !is_break(#[trigger] text[j]) && text[j]
                != '"' by {
                if n < 0 {
                    if j > 0 {
                        assert(text[j] == decimal(magnitude)[j - 1]);
                        assert(is_digit(decimal(magnitude)[j - 1]));
                    }
                } else {
                    assert(is_digit(decimal(magnitude)[j]));
                }
            }
            assert forall|j: int| p <= j < e implies !is_break(#[trigger] t[j]) && t[j] != '"' by {
                assert(t[j] == text[j - p]);
            }
            assert(t[p] == text[0]);
            lemma_word_runs(t, p, e);
        },
        Value::Symbol(w) => {
            assert forall|j: int| p <= j < e implies !is_break(#[trigger] t[j]) && t[j] != '"' by {
                assert(t[j] == w[j - p]);
            }
            assert(t[p] == w[0]);
            lemma_word_runs(t, p, e);
        },
        Value::String(s) => {
            assert(text == seq!['"'] + s + seq!['"']);
            assert(t[p] == text[0]);
            let q = p + 1 + s.len();
            assert(t[q] == text[q - p]);
            assert forall|j: int| p + 1 <= j < q implies #[trigger] t[j] != '"' by {
                assert(t[j] == text[j - p]);
                assert(text[j - p] == s[j - p - 1]);
            }
            lemma_quote_runs(t, p + 1, q);
            assert(t.subrange(p + 1, q) =~= s);
        },
        _ => {},
    }
}

proof fn lemma_printed(t: Seq<char>, p: int, v: Value)
    requires
        is_plain(v),
        0 <= p,
        p + render(v).len() <= t.len(),
        t.subrange(p, p + render(v).len()) == render(v),
        ends_at(t, p + render(v).len()),
    ensures
        tokens_from(at(t, p)) == tokens_of(v) + tokens_from(at(t, p + render(v).len())),
    decreases v, 0nat,
{
    let text = render(v);
    let count = text.len() as int;
    match v {
        Value::List(items) => {
            let inner = render_items(items, items.len());
            let size = inner.len() as int;
            assert(text == seq!['('] + inner + seq![')']);
            assert(count == size + 2);
            assert(t[p] == t.subrange(p, p + count)[0]);
            assert(t[p + 1 + size] == t.subrange(p, p + count)[1 + size]);
            assert(t.subrange(p + 1, p + 1 + size) =~= inner) by {
                assert forall|j: int| 0 <= j < size implies t.subrange(p + 1, p + 1 + size)[j]
                    == inner[j] by {
                    assert(t.subrange(p, p + count)[j + 1] == t[p + 1 + j]);
                }
            }
            assert(is_break(t[p + 1 + size]));
            lemma_next_step(t, p);
            lemma_printed_items(t, p + 1, items, items.len());
            lemma_next_step(t, p + 1 + size);
            let after = tokens_from(at(t, p + count));
            let middle = tokens_of_items(items, items.len());
            assert(seq![TokenView::LParen] + (middle + (seq![TokenView::RParen] + after)) =~= (
            seq![TokenView::LParen] + middle + seq![TokenView::RParen]) + after);
        },
        _ => {
            lemma_printed_atom(t, p, v);
            lemma_next_step(t, p);
            assert(tokens_of(v) =~= seq![tokens_of(v)[0]]);
        },
    }
}

proof fn lemma_printed_items(t: Seq<char>, q: int, items: Seq<Value>, n: nat)
    requires
        is_plain(Value::List(items)),
        n <= items.len(),
        0 <= q,
        q + render_items(items, n).len() <= t.len(),
        t.subrange(q, q + render_items(items, n).len()) == render_items(items, n),
        ends_at(t, q + render_items(items, n).len()),
    ensures
        tokens_from(at(t, q)) == tokens_of_items(items, n) + tokens_from(
            at(t, q + render_items(items, n).len()),
        ),
    decreases items, n,
{
    let all = render_items(items, n);
    let whole = Value::List(items);
    assert(whole->List_0 == items);
    if n == 0 {
        assert(tokens_of_items(items, 0) + tokens_from(at(t, q)) =~= tokens_from(at(t, q)));
    } else {
        let item = items[n - 1];
        assert(is_plain(item));
        let last = render(item);
        if n == 1 {
            assert(all == last);
            lemma_printed(t, q, item);
            assert(tokens_of_items(items, 1) =~= tokens_of(item)) by {
                assert(tokens_of_items(items, 0) + tokens_of(item) =~= tokens_of(item));
            }
        } else {
            let before = render_items(items, (n - 1) as nat);
            let a = before.len() as int;
            let b = last.len() as int;
            assert(all == before + " "@ + last);
            reveal_strlit(" ");
            assert(" "@.len() == 1 && " "@[0] == ' ');
            assert(all.len() == a + 1 + b);
            assert forall|j: int| 0 <= j < all.len() implies t[q + j] == all[j] by {
                assert(t.subrange(q, q + all.len())[j] == t[q + j]);
            }
            assert(t.subrange(q, q + a) =~= before) by {
                assert forall|j: int| 0 <= j < a implies t.subrange(q, q + a)[j] == before[j] by {
                    assert(t[q + j] == all[j]);
                }
            }
            assert(t[q + a] == ' ') by {
                assert(t[q + a] == all[a]);
            }
            assert(is_space(' '));
            lemma_printed_items(t, q, items, (n - 1) as nat);
            lemma_space_is_skipped(at(t, q + a), 1);
            assert(tokens_from(at(t, q + a)) == tokens_from(at(t, q + a + 1)));
            assert(t.subrange(q + a + 1, q + a + 1 + b) =~= last) by {
                assert forall|j: int| 0 <= j < b implies t.subrange(q + a + 1, q + a + 1 + b)[j]
                    == last[j] by {
                    assert(t[q + a + 1 + j] == all[a + 1 + j]);
                }
            }
            lemma_printed(t, q + a + 1, item);
            let rest = tokens_from(at(t, q + a + 1 + b));
            assert(tokens_of_items(items, (n - 1) as nat) + (tokens_of(item) + rest) =~= (
            tokens_of_items(items, (n - 1) as nat) + tokens_of(item)) + rest);
        }
    }
}

proof fn lemma_plain_is_syntax(v: Value)
    requires
        is_plain(v),
    ensures
        is_syntax(v),
    decreases v,
{
    match v {
        Value::List(items) => {
            assert forall|i: int| 0 <= i < items.len() implies is_syntax(#[trigger] items[i]) by {
                assert(is_plain(items[i]));
                lemma_plain_is_syntax(items[i]);
            }
        },
        _ => {},
    }
}

/// Reading undoes printing. The text that a plain list prints as has the
/// tokens that spell the list, and these are read as the list.
pub proof fn lemma_reading_undoes_printing(v: Value)
    requires
        v is List,
        is_plain(v),
    ensures
        tokens_from(at(render(v), 0)) == tokens_of(v),
        parse_spec(tokens_from(at(render(v), 0))) == Ok::<Value, Seq<char>>(v),
{
    let t = render(v);
    assert(t.subrange(0, t.len() as int) == t);
    lemma_printed(t, 0, v);
    let end = at(t, t.len() as int);
    assert(scan(end).0 is None) by {
        assert(skip_spaces(t, t.len() as int) == t.len());
    }
    assert(tokens_from(end) =~= Seq::<TokenView>::empty());
    assert(tokens_of(v) + Seq::<TokenView>::empty() =~= tokens_of(v));
    lemma_plain_is_syntax(v);
    lemma_reads_what_is_spelled(v, Seq::empty());
}

} // verus!
