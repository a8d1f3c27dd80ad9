//! The tokenizer: from source text to tokens, one at a time.

use crate::object::{Float, FloatView};
use crate::text::{
    chars_of, decimal, is_break, is_digit, is_space, is_whitespace, lemma_decimal_digits,
    lemma_integer_round_trip, parse_integer, parsed_integer, push_decimal, push_signed,
    signed_decimal,
};
use vstd::prelude::*;
use vstd::string::StringExecFns;

verus! {

#[derive(Debug, PartialEq)]
pub enum Token {
    Integer(i64),
    Float(Float),
    String(String),
    Symbol(String),
    LParen,
    RParen,
    LexerError(String),
}

pub ghost enum TokenView {
    Integer(i64),
    Float(FloatView),
    String(Seq<char>),
    Symbol(Seq<char>),
    LParen,
    RParen,
    LexerError(Seq<char>),
}

impl View for Token {
    type V = TokenView;

    open spec fn view(&self) -> TokenView {
        match self {
            Token::Integer(n) => TokenView::Integer(*n),
            Token::Float(f) => TokenView::Float(f@),
            Token::String(s) => TokenView::String(s@),
            Token::Symbol(s) => TokenView::Symbol(s@),
            Token::LParen => TokenView::LParen,
            Token::RParen => TokenView::RParen,
            Token::LexerError(s) => TokenView::LexerError(s@),
        }
    }
}

impl Clone for Token {
    fn clone(&self) -> (r: Self)
        ensures
            r@ == self@,
    {
        match self {
            Token::Integer(n) => Token::Integer(*n),
            Token::Float(f) => Token::Float(f.clone()),
            Token::String(s) => Token::String(s.clone()),
            Token::Symbol(s) => Token::Symbol(s.clone()),
            Token::LParen => Token::LParen,
            Token::RParen => Token::RParen,
            Token::LexerError(s) => Token::LexerError(s.clone()),
        }
    }
}

/// The printed form of a token.
pub open spec fn token_text(t: TokenView) -> Seq<char> {
    match t {
        TokenView::Integer(n) => signed_decimal(n as int),
        TokenView::Float(f) => f.text,
        TokenView::String(s) => seq!['"'] + s + seq!['"'],
        TokenView::Symbol(s) => s,
        TokenView::LParen => "("@,
        TokenView::RParen => ")"@,
        TokenView::LexerError(s) => s,
    }
}

/// What a token becomes once the host has tried to read its text as a float:
/// a symbol whose text is a float is that float, and every other token stays
/// what it is.
pub open spec fn promoted(t: TokenView, float: Option<FloatView>) -> TokenView {
    match (t, float) {
        (TokenView::Symbol(_), Some(f)) => TokenView::Float(f),
        _ => t,
    }
}

impl Token {
    /// The printed form of the token.
    pub fn to_text(&self) -> (s: String)
        ensures
            s@ == token_text(self@),
    {
        let mut out = String::new();
        match self {
            Token::Integer(n) => {
                push_signed(&mut out, *n);
            },
            Token::Float(f) => {
                out.append(f.text.as_str());
            },
            Token::String(s) => {
                out.push('"');
                out.append(s.as_str());
                out.push('"');
                assert(out@ == token_text(self@));
            },
            Token::Symbol(s) => {
                out.append(s.as_str());
            },
            Token::LParen => {
                out.append("(");
            },
            Token::RParen => {
                out.append(")");
            },
            Token::LexerError(s) => {
                out.append(s.as_str());
            },
        }
        out
    }

    /// Completes the classification of a token with the one step that the
    /// tokenizer leaves to its host. `float` is the host's reading of the
    /// token's text as a 64-bit float, `None` where the text is no float.
    pub fn promote(self, float: Option<Float>) -> (r: Token)
        ensures
            r@ == promoted(
                self@,
                match float {
                    Some(f) => Some(f@),
                    None => None,
                },
            ),
    {
        match self {
            Token::Symbol(s) => match float {
                Some(f) => Token::Float(f),
                None => Token::Symbol(s),
            },
            other => other,
        }
    }
}

/// Line and column after the first `n` characters of `s` have been consumed.
/// Both start at 1; a line feed starts a new line and sets the column to 0,
/// every other character advances the column by one.
pub open spec fn position(s: Seq<char>, n: int) -> (nat, nat)
    decreases n,
{
    if n <= 0 {
        (1, 1)
    } else {
        let before = position(s, n - 1);
        if s[n - 1] == '\n' {
            (before.0 + 1, 0)
        } else {
            (before.0, before.1 + 1)
        }
    }
}

/// The first index from `i` on that holds no white space, or the length.
pub open spec fn skip_spaces(s: Seq<char>, i: int) -> int
    decreases s.len() - i,
{
    if 0 <= i < s.len() && is_space(s[i]) {
        skip_spaces(s, i + 1)
    } else {
        i
    }
}

/// The first index from `i` on that holds white space, a parenthesis or a
/// double quote, or the length.
pub open spec fn word_end(s: Seq<char>, i: int) -> int
    decreases s.len() - i,
{
    if 0 <= i < s.len() && !is_break(s[i]) && s[i] != '"' {
        word_end(s, i + 1)
    } else {
        i
    }
}

/// The first index from `i` on that holds a double quote, or the length.
pub open spec fn quote_from(s: Seq<char>, i: int) -> int
    decreases s.len() - i,
{
    if 0 <= i < s.len() && s[i] != '"' {
        quote_from(s, i + 1)
    } else {
        i
    }
}

pub open spec fn at_position(at: (nat, nat)) -> Seq<char> {
    " (line "@ + decimal(at.0) + ", column "@ + decimal(at.1) + ")"@
}

pub open spec fn unexpected_character(c: char, at: (nat, nat)) -> Seq<char> {
    "Unexpected character "@.push(c) + at_position(at)
}

pub open spec fn unexpected_end(at: (nat, nat)) -> Seq<char> {
    "Unexpected EOF"@ + at_position(at)
}

/// The token that a word is before the host has looked at it: an integer
/// where the text denotes one that fits in 64 bits, else a symbol.
pub open spec fn word_token(w: Seq<char>) -> TokenView {
    match parsed_integer(w) {
        Some(n) => TokenView::Integer(n),
        None => TokenView::Symbol(w),
    }
}

/// Where the tokenizer stands: its input, how many characters of it are
/// consumed, and whether it has reported an error.
pub ghost struct LexState {
    pub input: Seq<char>,
    pub pos: int,
    pub failed: bool,
}

/// One step of the tokenizer: the token found, if any, and the state after.
pub open spec fn scan(st: LexState) -> (Option<TokenView>, LexState) {
    let s = st.input;
    let p = skip_spaces(s, st.pos);
    if st.failed {
        (None, st)
    } else if p >= s.len() {
        (None, LexState { pos: p, ..st })
    } else if s[p] == '(' {
        (Some(TokenView::LParen), LexState { pos: p + 1, ..st })
    } else if s[p] == ')' {
        (Some(TokenView::RParen), LexState { pos: p + 1, ..st })
    } else if s[p] == '"' {
        let q = quote_from(s, p + 1);
        if q >= s.len() {
            (
                Some(TokenView::LexerError(unexpected_end(position(s, q)))),
                LexState { pos: q, failed: true, ..st },
            )
        } else if q + 1 < s.len() && !is_break(s[q + 1]) {
            (
                Some(TokenView::LexerError(unexpected_character(s[q + 1], position(s, q + 1)))),
                LexState { pos: q + 1, failed: true, ..st },
            )
        } else {
            (Some(TokenView::String(s.subrange(p + 1, q))), LexState { pos: q + 1, ..st })
        }
    } else {
        let e = word_end(s, p);
        if e < s.len() && s[e] == '"' {
            (
                Some(TokenView::LexerError(unexpected_character('"', position(s, e)))),
                LexState { pos: e, failed: true, ..st },
            )
        } else {
            (Some(word_token(s.subrange(p, e))), LexState { pos: e, ..st })
        }
    }
}

/// The views of a sequence of tokens, in order.
pub open spec fn token_views(tokens: Seq<Token>) -> Seq<TokenView> {
    Seq::new(tokens.len(), |i: int| tokens[i]@)
}

/// How far the tokenizer is from its end: nothing after an error, and else
/// what is left of the input, and one.
pub open spec fn distance(st: LexState) -> int {
    if st.failed {
        0
    } else {
        st.input.len() - st.pos + 1
    }
}

/// All the tokens from a state on, in order: one step of the tokenizer
/// after the other, until a step finds none.
pub open spec fn tokens_from(st: LexState) -> Seq<TokenView>
    decreases distance(st),
    when 0 <= st.pos <= st.input.len()
    via tokens_from_ends
{
    match scan(st).0 {
        None => Seq::empty(),
        Some(t) => seq![t] + tokens_from(scan(st).1),
    }
}

#[via_fn]
proof fn tokens_from_ends(st: LexState) {
    lemma_scan_advances(st);
    lemma_error_is_final(st);
}

pub open spec fn token_view(t: Option<Token>) -> Option<TokenView> {
    match t {
        Some(t) => Some(t@),
        None => None,
    }
}

fn skip_spaces_from(chars: &Vec<char>, from: usize) -> (r: usize)
    requires
        from <= chars.len(),
    ensures
        r == skip_spaces(chars@, from as int),
        from <= r <= chars.len(),
{
    let mut i: usize = from;
    while i < chars.len() && is_whitespace(chars[i])
        invariant
            from <= i <= chars.len(),
            skip_spaces(chars@, i as int) == skip_spaces(chars@, from as int),
        decreases chars.len() - i,
    {
        i = i + 1;
    }
    i
}

fn is_word_char(c: char) -> (r: bool)
    ensures
        r == (!is_break(c) && c != '"'),
{
    !is_whitespace(c) && c != '(' && c != ')' && c != '"'
}

fn word_end_from(chars: &Vec<char>, from: usize) -> (r: usize)
    requires
        from <= chars.len(),
    ensures
        r == word_end(chars@, from as int),
        from <= r <= chars.len(),
{
    let mut i: usize = from;
    while i < chars.len() && is_word_char(chars[i])
        invariant
            from <= i <= chars.len(),
            word_end(chars@, i as int) == word_end(chars@, from as int),
        decreases chars.len() - i,
    {
        i = i + 1;
    }
    i
}

fn quote_from_index(chars: &Vec<char>, from: usize) -> (r: usize)
    requires
        from <= chars.len(),
    ensures
        r == quote_from(chars@, from as int),
        from <= r <= chars.len(),
{
    let mut i: usize = from;
    while i < chars.len() && chars[i] != '"'
        invariant
            from <= i <= chars.len(),
            quote_from(chars@, i as int) == quote_from(chars@, from as int),
        decreases chars.len() - i,
    {
        i = i + 1;
    }
    i
}

fn position_of(chars: &Vec<char>, n: usize) -> (r: (u128, u128))
    requires
        n <= chars.len(),
    ensures
        (r.0 as nat, r.1 as nat) == position(chars@, n as int),
{
    let mut line: u128 = 1;
    let mut column: u128 = 1;
    let mut i: usize = 0;
    while i < n
        invariant
            i <= n <= chars.len(),
            (line as nat, column as nat) == position(chars@, i as int),
            line <= i + 1,
            column <= i + 1,
        decreases n - i,
    {
        if chars[i] == '\n' {
            line = line + 1;
            column = 0;
        } else {
            column = column + 1;
        }
        i = i + 1;
    }
    (line, column)
}

fn push_position(out: &mut String, at: (u128, u128))
    ensures
        final(out)@ == old(out)@ + at_position((at.0 as nat, at.1 as nat)),
{
    let ghost start = out@;
    out.append(" (line ");
    push_decimal(out, at.0);
    out.append(", column ");
    push_decimal(out, at.1);
    out.append(")");
    assert(out@ == start + at_position((at.0 as nat, at.1 as nat)));
}

fn text_of(chars: &Vec<char>, from: usize, to: usize) -> (s: String)
    requires
        from <= to <= chars.len(),
    ensures
        s@ == chars@.subrange(from as int, to as int),
{
    let mut s = String::new();
    let mut i: usize = from;
    while i < to
        invariant
            from <= i <= to <= chars.len(),
            s@ == chars@.subrange(from as int, i as int),
        decreases to - i,
    {
        s.push(chars[i]);
        i = i + 1;
    }
    s
}

/// A one-pass, forward-only tokenizer over a text.
pub struct TokenIterator {
    chars: Vec<char>,
    pos: usize,
    is_error: bool,
}

impl View for TokenIterator {
    type V = LexState;

    closed spec fn view(&self) -> LexState {
        LexState { input: self.chars@, pos: self.pos as int, failed: self.is_error }
    }
}

/// A tokenizer at the start of `s`.
pub fn tokenize(s: &str) -> (r: TokenIterator)
    ensures
        r@ == (LexState { input: s@, pos: 0, failed: false }),
{
    TokenIterator { chars: chars_of(s), pos: 0, is_error: false }
}

impl TokenIterator {
    #[verifier::type_invariant]
    spec fn inv(self) -> bool {
        self.pos <= self.chars.len()
    }

    /// The next token of the input, or `None` once the input is exhausted or
    /// an error has been reported.
    pub fn next(&mut self) -> (r: Option<Token>)
        ensures
            token_view(r) == scan(old(self)@).0,
            final(self)@ == scan(old(self)@).1,
    {
        proof {
            use_type_invariant(&*self);
        }
        if self.is_error {
            return None;
        }
        let n: usize = self.chars.len();
        let p: usize = skip_spaces_from(&self.chars, self.pos);
        if p >= n {
            self.pos = p;
            return None;
        }
        let c: char = self.chars[p];
        if c == '(' {
            self.pos = p + 1;
            return Some(Token::LParen);
        }
        if c == ')' {
            self.pos = p + 1;
            return Some(Token::RParen);
        }
        if c == '"' {
            let q: usize = quote_from_index(&self.chars, p + 1);
            if q >= n {
                let at = position_of(&self.chars, q);
                let mut message = String::from_str("Unexpected EOF");
                push_position(&mut message, at);
                self.pos = q;
                self.is_error = true;
                return Some(Token::LexerError(message));
            }
            if q + 1 < n {
                let after: char = self.chars[q + 1];
                if !is_whitespace(after) && after != '(' && after != ')' {
                    let at = position_of(&self.chars, q + 1);
                    let mut message = String::from_str("Unexpected character ");
                    message.push(after);
                    push_position(&mut message, at);
                    self.pos = q + 1;
                    self.is_error = true;
                    return Some(Token::LexerError(message));
                }
            }
            let text = text_of(&self.chars, p + 1, q);
            self.pos = q + 1;
            return Some(Token::String(text));
        }
        let e: usize = word_end_from(&self.chars, p);
        if e < n && self.chars[e] == '"' {
            let at = position_of(&self.chars, e);
            let mut message = String::from_str("Unexpected character ");
            message.push('"');
            push_position(&mut message, at);
            self.pos = e;
            self.is_error = true;
            return Some(Token::LexerError(message));
        }
        let token = match parse_integer(&self.chars, p, e) {
            Some(value) => Token::Integer(value),
            None => Token::Symbol(text_of(&self.chars, p, e)),
        };
        self.pos = e;
        Some(token)
    }
}

/// All the tokens of a text, in order. A word that reads as a float is a
/// symbol here, as it is for `next`.
pub fn words(s: &str) -> (v: Vec<Token>)
    ensures
        token_views(v@) == tokens_from(LexState { input: s@, pos: 0, failed: false }),
{
    let mut iterator = tokenize(s);
    let mut v: Vec<Token> = Vec::new();
    let ghost whole = tokens_from(iterator@);
    assert(token_views(v@) + tokens_from(iterator@) =~= whole);
    loop
        invariant
            token_views(v@) + tokens_from(iterator@) == whole,
        ensures
            token_views(v@) == whole,
        decreases distance(iterator@),
    {
        let ghost before = iterator@;
        let ghost found = token_views(v@);
        proof {
            use_type_invariant(&iterator);
            lemma_scan_advances(before);
            lemma_error_is_final(before);
        }
        match iterator.next() {
            None => {
                assert(found + Seq::<TokenView>::empty() =~= found);
                break ;
            },
            Some(token) => {
                v.push(token);
                proof {
                    assert(token_views(v@) =~= found.push(token@));
                    assert(found.push(token@) + tokens_from(iterator@) =~= found + (seq![token@]
                        + tokens_from(iterator@)));
                }
            },
        }
    }
    v
}

/// Once an error has been reported, the tokenizer yields nothing more and
/// stays where it is.
pub proof fn lemma_error_is_final(st: LexState)
    ensures
        scan(st).0 matches Some(TokenView::LexerError(_)) ==> scan(st).1.failed,
        st.failed ==> scan(st) == (None::<TokenView>, st),
{
}

/// A word that runs into a double quote is an error: the word is dropped, the
/// error names the quote and where it stands, and no token follows.
pub proof fn lemma_word_then_quote(st: LexState)
    requires
        !st.failed,
        0 <= st.pos,
        ({
            let p = skip_spaces(st.input, st.pos);
            let e = word_end(st.input, p);
            p < e < st.input.len() && st.input[e] == '"'
        }),
    ensures
        scan(st).0 == Some(
            TokenView::LexerError(
                unexpected_character(
                    '"',
                    position(st.input, word_end(st.input, skip_spaces(st.input, st.pos))),
                ),
            ),
        ),
        scan(scan(st).1).0 is None,
{
    let s = st.input;
    let p = skip_spaces(s, st.pos);
    lemma_skip_spaces_bounds(s, st.pos);
    assert(!is_break(s[p]) && s[p] != '"');
}

/// Skipping white space moves forward, stays within the text and stops on
/// what is no white space.
pub proof fn lemma_skip_spaces_bounds(s: Seq<char>, i: int)
    requires
        0 <= i,
    ensures
        i <= skip_spaces(s, i),
        i <= s.len() ==> skip_spaces(s, i) <= s.len(),
        skip_spaces(s, i) < s.len() ==> !is_space(s[skip_spaces(s, i)]),
    decreases s.len() - i,
{
    if i < s.len() && is_space(s[i]) {
        lemma_skip_spaces_bounds(s, i + 1);
    }
}

proof fn lemma_word_end_bounds(s: Seq<char>, i: int)
    requires
        0 <= i <= s.len(),
    ensures
        i <= word_end(s, i) <= s.len(),
    decreases s.len() - i,
{
    if i < s.len() && !is_break(s[i]) && s[i] != '"' {
        lemma_word_end_bounds(s, i + 1);
    }
}

proof fn lemma_quote_from_bounds(s: Seq<char>, i: int)
    requires
        0 <= i <= s.len(),
    ensures
        i <= quote_from(s, i) <= s.len(),
    decreases s.len() - i,
{
    if i < s.len() && s[i] != '"' {
        lemma_quote_from_bounds(s, i + 1);
    }
}

/// The tokenizer only moves forward and never past the end of its input.
/// Every token but an error consumes at least one character, so a text has
/// finitely many tokens; and there is no token only where nothing but white
/// space is left, or after an error.
pub proof fn lemma_scan_advances(st: LexState)
    requires
        0 <= st.pos <= st.input.len(),
    ensures
        st.pos <= scan(st).1.pos <= st.input.len(),
        scan(st).1.input == st.input,
        scan(st).0 is Some && !(scan(st).0->0 is LexerError) ==> st.pos < scan(st).1.pos,
        scan(st).0 is None && !st.failed ==> scan(st).1.pos == st.input.len(),
{
    let s = st.input;
    let p = skip_spaces(s, st.pos);
    lemma_skip_spaces_bounds(s, st.pos);
    if !st.failed && p < s.len() {
        if s[p] == '"' {
            lemma_quote_from_bounds(s, p + 1);
        } else if s[p] != '(' && s[p] != ')' {
            lemma_word_end_bounds(s, p + 1);
        }
    }
}

proof fn lemma_word_to_the_end(s: Seq<char>, i: int)
    requires
        0 <= i <= s.len(),
        forall|j: int| i <= j < s.len() ==> !is_break(#[trigger] s[j]) && s[j] != '"',
    ensures
        word_end(s, i) == s.len(),
    decreases s.len() - i,
{
    if i < s.len() {
        lemma_word_to_the_end(s, i + 1);
    }
}

proof fn lemma_quote_found(s: Seq<char>, i: int, q: int)
    requires
        0 <= i <= q < s.len(),
        s[q] == '"',
        forall|j: int| i <= j < q ==> #[trigger] s[j] != '"',
    ensures
        quote_from(s, i) == q,
    decreases q - i,
{
    if i < q {
        lemma_quote_found(s, i + 1, q);
    }
}

/// The decimal numeral of an integer is one token, that integer, and the
/// whole text.
pub proof fn lemma_integer_is_one_token(n: i64)
    ensures
        ({
            let text = signed_decimal(n as int);
            let st = LexState { input: text, pos: 0, failed: false };
            let end = LexState { input: text, pos: text.len() as int, failed: false };
            &&& scan(st) == (Some(TokenView::Integer(n)), end)
            &&& scan(end) == (None::<TokenView>, end)
        }),
{
    let text = signed_decimal(n as int);
    let magnitude = if n < 0 {
        (-n) as nat
    } else {
        n as nat
    };
    lemma_decimal_digits(magnitude);
    lemma_integer_round_trip(n);
    assert forall|j: int| 0 <= j < text.len() implies !is_break(#[trigger] text[j]) && text[j]
        != '"' by {
        if n < 0 {
            if j > 0 {
                assert(text[j] == decimal(magnitude)[j - 1]);
                assert(is_digit(decimal(magnitude)[j - 1]));
            }
        } else {
            assert(is_digit(decimal(magnitude)[j]));
        }
    }
    lemma_word_to_the_end(text, 0);
    assert(!is_space(text[0]));
    assert(text.subrange(0, text.len() as int) == text);
}

/// A text without double quotes, put between two, is one string token that
/// holds the text as it is.
pub proof fn lemma_string_is_one_token(content: Seq<char>)
    requires
        forall|j: int| 0 <= j < content.len() ==> #[trigger] content[j] != '"',
    ensures
        ({
            let text = seq!['"'] + content + seq!['"'];
            let st = LexState { input: text, pos: 0, failed: false };
            let end = LexState { input: text, pos: text.len() as int, failed: false };
            &&& scan(st) == (Some(TokenView::String(content)), end)
            &&& scan(end) == (None::<TokenView>, end)
        }),
{
    let text = seq!['"'] + content + seq!['"'];
    let q = content.len() as int + 1;
    assert(text[0] == '"');
    assert(text[q] == '"');
    assert forall|j: int| 1 <= j < q implies #[trigger] text[j] != '"' by {
        assert(text[j] == content[j - 1]);
    }
    lemma_quote_found(text, 1, q);
    assert(text.subrange(1, q) == content);
    assert(!is_space(text[0]));
}

proof fn lemma_skip_spaces_over(s: Seq<char>, i: int, k: int)
    requires
        0 <= i,
        0 <= k,
        i + k <= s.len(),
        forall|j: int| i <= j < i + k ==> is_space(#[trigger] s[j]),
    ensures
        skip_spaces(s, i) == skip_spaces(s, i + k),
    decreases k,
{
    if k > 0 {
        lemma_skip_spaces_over(s, i + 1, k - 1);
    }
}

/// White space before a token does not matter: from anywhere in a run of
/// white space the tokenizer finds the same token and ends in the same
/// state.
pub proof fn lemma_space_is_skipped(st: LexState, k: int)
    requires
        !st.failed,
        0 <= st.pos,
        0 <= k,
        st.pos + k <= st.input.len(),
        forall|j: int| st.pos <= j < st.pos + k ==> is_space(#[trigger] st.input[j]),
    ensures
        scan(st) == scan(LexState { pos: st.pos + k, ..st }),
{
    lemma_skip_spaces_over(st.input, st.pos, k);
}

/// Two tokens that are the same, or are both errors.
pub open spec fn alike(a: TokenView, b: TokenView) -> bool {
    a == b || (a is LexerError && b is LexerError)
}

/// Two sequences of tokens that are alike token by token.
pub open spec fn all_alike(a: Seq<TokenView>, b: Seq<TokenView>) -> bool {
    a.len() == b.len() && forall|i: int| 0 <= i < a.len() ==> alike(#[trigger] a[i], b[i])
}

/// The same text is left in `s` from `i` on and in `t` from `j` on.
pub open spec fn same_rest(s: Seq<char>, i: int, t: Seq<char>, j: int) -> bool {
    &&& 0 <= i <= s.len()
    &&& 0 <= j <= t.len()
    &&& s.skip(i) == t.skip(j)
}

proof fn lemma_same_rest_at(s: Seq<char>, i: int, t: Seq<char>, j: int, k: int)
    requires
        same_rest(s, i, t, j),
        0 <= k,
    ensures
        s.len() - i == t.len() - j,
        i + k < s.len() ==> s[i + k] == t[j + k],
        i + k <= s.len() ==> same_rest(s, i + k, t, j + k),
{
    assert(s.skip(i).len() == t.skip(j).len());
    if i + k < s.len() {
        assert(s.skip(i)[k] == s[i + k]);
        assert(t.skip(j)[k] == t[j + k]);
    }
    if i + k <= s.len() {
        assert(s.skip(i + k) =~= s.skip(i).skip(k));
        assert(t.skip(j + k) =~= t.skip(j).skip(k));
    }
}

proof fn lemma_skip_spaces_rest(s: Seq<char>, i: int, t: Seq<char>, j: int)
    requires
        same_rest(s, i, t, j),
    ensures
        skip_spaces(s, i) - i == skip_spaces(t, j) - j,
        i <= skip_spaces(s, i) <= s.len(),
    decreases s.len() - i,
{
    lemma_same_rest_at(s, i, t, j, 0);
    lemma_same_rest_at(s, i, t, j, 1);
    if i < s.len() && is_space(s[i]) {
        lemma_skip_spaces_rest(s, i + 1, t, j + 1);
    }
}

proof fn lemma_word_end_rest(s: Seq<char>, i: int, t: Seq<char>, j: int)
    requires
        same_rest(s, i, t, j),
    ensures
        word_end(s, i) - i == word_end(t, j) - j,
        i <= word_end(s, i) <= s.len(),
    decreases s.len() - i,
{
    lemma_same_rest_at(s, i, t, j, 0);
    lemma_same_rest_at(s, i, t, j, 1);
    if i < s.len() && !is_break(s[i]) && s[i] != '"' {
        lemma_word_end_rest(s, i + 1, t, j + 1);
    }
}

proof fn lemma_quote_from_rest(s: Seq<char>, i: int, t: Seq<char>, j: int)
    requires
        same_rest(s, i, t, j),
    ensures
        quote_from(s, i) - i == quote_from(t, j) - j,
        i <= quote_from(s, i) <= s.len(),
    decreases s.len() - i,
{
    lemma_same_rest_at(s, i, t, j, 0);
    lemma_same_rest_at(s, i, t, j, 1);
    if i < s.len() && s[i] != '"' {
        lemma_quote_from_rest(s, i + 1, t, j + 1);
    }
}

proof fn lemma_subrange_rest(s: Seq<char>, i: int, t: Seq<char>, j: int, a: int, b: int)
    requires
        same_rest(s, i, t, j),
        0 <= a <= b,
        i + b <= s.len(),
    ensures
        s.subrange(i + a, i + b) == t.subrange(j + a, j + b),
{
    lemma_same_rest_at(s, i, t, j, 0);
    let left = s.subrange(i + a, i + b);
    let right = t.subrange(j + a, j + b);
    assert forall|k: int| 0 <= k < b - a implies #[trigger] left[k] == right[k] by {
        lemma_same_rest_at(s, i, t, j, a + k);
    }
    assert(left =~= right);
}

/// One step of the tokenizer depends on the text that is left only, but for
/// the place that an error names.
proof fn lemma_scan_rest(s: Seq<char>, i: int, t: Seq<char>, j: int)
    requires
        same_rest(s, i, t, j),
    ensures
        ({
            let a = scan(LexState { input: s, pos: i, failed: false });
            let b = scan(LexState { input: t, pos: j, failed: false });
            &&& a.0 is None <==> b.0 is None
            &&& a.0 is Some ==> alike(a.0->0, b.0->0)
            &&& a.1.failed == b.1.failed
            &&& a.1.pos - i == b.1.pos - j
            &&& same_rest(s, a.1.pos, t, b.1.pos)
        }),
{
    lemma_skip_spaces_rest(s, i, t, j);
    let p = skip_spaces(s, i);
    let r = skip_spaces(t, j);
    let d = p - i;
    lemma_same_rest_at(s, i, t, j, d);
    lemma_same_rest_at(s, p, t, r, 0);
    lemma_same_rest_at(s, p, t, r, 1);
    if p < s.len() {
        if s[p] == '(' || s[p] == ')' {
        } else if s[p] == '"' {
            lemma_quote_from_rest(s, p + 1, t, r + 1);
            let q = quote_from(s, p + 1);
            let u = quote_from(t, r + 1);
            lemma_same_rest_at(s, p, t, r, q - p);
            if q < s.len() {
                lemma_same_rest_at(s, p, t, r, q - p + 1);
                lemma_subrange_rest(s, p, t, r, 1, q - p);
            }
        } else {
            lemma_word_end_rest(s, p, t, r);
            let e = word_end(s, p);
            lemma_same_rest_at(s, p, t, r, e - p);
            lemma_subrange_rest(s, p, t, r, 0, e - p);
        }
    }
}

/// What the tokenizer finds depends on the text that is left only: the same
/// text left gives the same tokens, wherever it stands and whatever came
/// before, but for the places that errors name.
pub proof fn lemma_tokens_of_the_rest(s: Seq<char>, i: int, t: Seq<char>, j: int)
    requires
        same_rest(s, i, t, j),
    ensures
        all_alike(
            tokens_from(LexState { input: s, pos: i, failed: false }),
            tokens_from(LexState { input: t, pos: j, failed: false }),
        ),
    decreases s.len() - i,
{
    let sa = LexState { input: s, pos: i, failed: false };
    let sb = LexState { input: t, pos: j, failed: false };
    lemma_scan_rest(s, i, t, j);
    lemma_scan_advances(sa);
    lemma_scan_advances(sb);
    let a = scan(sa);
    let b = scan(sb);
    if a.0 is Some {
        let ra = tokens_from(a.1);
        let rb = tokens_from(b.1);
        assert(tokens_from(sa) == seq![a.0->0] + ra);
        assert(tokens_from(sb) == seq![b.0->0] + rb);
        if a.1.failed {
            lemma_error_is_final(a.1);
            lemma_error_is_final(b.1);
            assert(ra =~= Seq::<TokenView>::empty());
            assert(rb =~= Seq::<TokenView>::empty());
        } else {
            assert(!(a.0->0 is LexerError));
            lemma_tokens_of_the_rest(s, a.1.pos, t, b.1.pos);
            assert(a.1 == LexState { input: s, pos: a.1.pos, failed: false });
            assert(b.1 == LexState { input: t, pos: b.1.pos, failed: false });
        }
        assert forall|k: int| 0 <= k < tokens_from(sa).len() implies alike(
            #[trigger] tokens_from(sa)[k],
            tokens_from(sb)[k],
        ) by {
            if k > 0 {
                assert(tokens_from(sa)[k] == ra[k - 1]);
                assert(tokens_from(sb)[k] == rb[k - 1]);
            }
        }
    }
}

/// How much white space stands before a text does not matter.
pub proof fn lemma_space_before(first: Seq<char>, second: Seq<char>, text: Seq<char>)
    requires
        forall|k: int| 0 <= k < first.len() ==> is_space(#[trigger] first[k]),
        forall|k: int| 0 <= k < second.len() ==> is_space(#[trigger] second[k]),
    ensures
        all_alike(
            tokens_from(LexState { input: first + text, pos: 0, failed: false }),
            tokens_from(LexState { input: second + text, pos: 0, failed: false }),
        ),
{
    let s = first + text;
    let t = second + text;
    let a = LexState { input: s, pos: 0, failed: false };
    let b = LexState { input: t, pos: 0, failed: false };
    lemma_space_is_skipped(a, first.len() as int);
    lemma_space_is_skipped(b, second.len() as int);
    let a2 = LexState { input: s, pos: first.len() as int, failed: false };
    let b2 = LexState { input: t, pos: second.len() as int, failed: false };
    assert(tokens_from(a) == tokens_from(a2));
    assert(tokens_from(b) == tokens_from(b2));
    assert(s.skip(first.len() as int) =~= text);
    assert(t.skip(second.len() as int) =~= text);
    lemma_tokens_of_the_rest(s, first.len() as int, t, second.len() as int);
}

} // verus!
