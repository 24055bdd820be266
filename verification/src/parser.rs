//! Reading an expression from its text.
use vstd::prelude::*;
use crate::ast::{
    args_view, call_view, calls_view, expr_view, lemma_args_view_push, lemma_calls_view_push,
    lemma_values_view_push, value_view, values_view, CallV, ExprV, Expression, ExpressionValue,
    FunctionCall, IdV, Identifier, IdentifierValue, LogicalExpression, LogicalOperator,
    MathExpression, MathOperator, StringConcat, ValueV,
};

verus! {

#[derive(Clone, Copy, Debug, PartialEq, Eq, Structural)]
pub enum Punct {
    LParen,
    RParen,
    LBracket,
    RBracket,
    Dot,
    Comma,
    Assign,
    Pipe,
    Tilde,
    Plus,
    Minus,
    Star,
    Slash,
    Percent,
    Eq,
    Ne,
    Gt,
    Ge,
    Lt,
    Le,
}

#[derive(Clone, Copy, Debug, PartialEq, Eq, Structural)]
pub enum Keyword {
    True,
    False,
    And,
    Or,
    Not,
    This,
    Super,
}

#[derive(Debug)]
pub enum Token {
    Int(i64),
    Float(String),
    Str(String),
    Word(String),
    Key(Keyword),
    Punct(Punct),
}

/// The mathematical value of a token.
pub enum TokV {
    Int(i64),
    Float(Seq<char>),
    Str(Seq<char>),
    Word(Seq<char>),
    Key(Keyword),
    Punct(Punct),
}

/// The mathematical value of a token.
pub open spec fn token_view(t: Token) -> TokV {
    match t {
        Token::Int(x) => TokV::Int(x),
        Token::Float(s) => TokV::Float(s@),
        Token::Str(s) => TokV::Str(s@),
        Token::Word(s) => TokV::Word(s@),
        Token::Key(k) => TokV::Key(k),
        Token::Punct(p) => TokV::Punct(p),
    }
}

/// The mathematical values of tokens.
pub open spec fn tokens_view(t: Seq<Token>) -> Seq<TokV> {
    t.map_values(|x: Token| token_view(x))
}

// ---------------------------------------------------------------------------
// Characters and tokens.

/// Whether `c` is an ASCII digit.
pub open spec fn is_digit(c: char) -> bool {
    '0' <= c <= '9'
}

/// Whether `c` can start a word.
pub open spec fn is_word_start(c: char) -> bool {
    ('a' <= c <= 'z') || ('A' <= c <= 'Z') || c == '_'
}

/// Whether `c` can continue a word.
pub open spec fn is_word_char(c: char) -> bool {
    is_word_start(c) || is_digit(c)
}

/// Whether `c` is white space between tokens.
pub open spec fn is_space(c: char) -> bool {
    c == ' ' || c == '\t' || c == '\n' || c == '\r'
}

/// Whether `c` opens and closes a string.
pub open spec fn is_quote(c: char) -> bool {
    c == '"' || c == '\'' || c == '`'
}

/// The end of the run of digits that starts at `i`.
pub open spec fn digits_end(s: Seq<char>, i: int) -> int
    decreases s.len() - i,
{
    if 0 <= i < s.len() && is_digit(s[i]) {
        digits_end(s, i + 1)
    } else {
        i
    }
}

/// The end of the run of word characters that starts at `i`.
pub open spec fn word_end(s: Seq<char>, i: int) -> int
    decreases s.len() - i,
{
    if 0 <= i < s.len() && is_word_char(s[i]) {
        word_end(s, i + 1)
    } else {
        i
    }
}

/// The first index from `i` on that holds `q`.
pub open spec fn find_char(s: Seq<char>, i: int, q: char) -> Option<int>
    decreases s.len() - i,
{
    if i < 0 || i >= s.len() {
        None
    } else if s[i] == q {
        Some(i)
    } else {
        find_char(s, i + 1, q)
    }
}

/// The number the digits `s[i..j]` write in decimal.
pub open spec fn digits_value(s: Seq<char>, i: int, j: int) -> int
    decreases j - i,
{
    if j <= i {
        0
    } else {
        digits_value(s, i, j - 1) * 10 + (s[j - 1] as int - '0' as int)
    }
}

/// The token a word makes: a keyword, or a name.
pub open spec fn word_token(w: Seq<char>) -> TokV {
    if w == seq!['t', 'r', 'u', 'e'] {
        TokV::Key(Keyword::True)
    } else if w == seq!['f', 'a', 'l', 's', 'e'] {
        TokV::Key(Keyword::False)
    } else if w == seq!['a', 'n', 'd'] {
        TokV::Key(Keyword::And)
    } else if w == seq!['o', 'r'] {
        TokV::Key(Keyword::Or)
    } else if w == seq!['n', 'o', 't'] {
        TokV::Key(Keyword::Not)
    } else if w == seq!['t', 'h', 'i', 's'] {
        TokV::Key(Keyword::This)
    } else if w == seq!['s', 'u', 'p', 'e', 'r'] {
        TokV::Key(Keyword::Super)
    } else {
        TokV::Word(w)
    }
}

/// The operator written by the two characters `a` and `b`.
pub open spec fn two_char_punct(a: char, b: char) -> Option<Punct> {
    if b != '=' {
        None
    } else if a == '=' {
        Some(Punct::Eq)
    } else if a == '!' {
        Some(Punct::Ne)
    } else if a == '>' {
        Some(Punct::Ge)
    } else if a == '<' {
        Some(Punct::Le)
    } else {
        None
    }
}

/// The punctuation written by the character `c`.
pub open spec fn one_char_punct(c: char) -> Option<Punct> {
    if c == '(' {
        Some(Punct::LParen)
    } else if c == ')' {
        Some(Punct::RParen)
    } else if c == '[' {
        Some(Punct::LBracket)
    } else if c == ']' {
        Some(Punct::RBracket)
    } else if c == '.' {
        Some(Punct::Dot)
    } else if c == ',' {
        Some(Punct::Comma)
    } else if c == '=' {
        Some(Punct::Assign)
    } else if c == '|' {
        Some(Punct::Pipe)
    } else if c == '~' {
        Some(Punct::Tilde)
    } else if c == '+' {
        Some(Punct::Plus)
    } else if c == '-' {
        Some(Punct::Minus)
    } else if c == '*' {
        Some(Punct::Star)
    } else if c == '/' {
        Some(Punct::Slash)
    } else if c == '%' {
        Some(Punct::Percent)
    } else if c == '>' {
        Some(Punct::Gt)
    } else if c == '<' {
        Some(Punct::Lt)
    } else {
        None
    }
}

/// `t` before the tokens of `rest`.
pub open spec fn cons(t: TokV, rest: Option<Seq<TokV>>) -> Option<Seq<TokV>> {
    match rest {
        Some(r) => Some(seq![t] + r),
        None => None,
    }
}

proof fn lemma_digits_end(s: Seq<char>, i: int)
    requires
        0 <= i <= s.len(),
    ensures
        i <= digits_end(s, i) <= s.len(),
        forall|k: int| i <= k < digits_end(s, i) ==> is_digit(s[k]),
        digits_end(s, i) < s.len() ==> !is_digit(s[digits_end(s, i)]),
    decreases s.len() - i,
{
    if i < s.len() && is_digit(s[i]) {
        lemma_digits_end(s, i + 1);
    }
}

proof fn lemma_word_end(s: Seq<char>, i: int)
    requires
        0 <= i <= s.len(),
    ensures
        i <= word_end(s, i) <= s.len(),
        forall|k: int| i <= k < word_end(s, i) ==> is_word_char(s[k]),
        word_end(s, i) < s.len() ==> !is_word_char(s[word_end(s, i)]),
    decreases s.len() - i,
{
    if i < s.len() && is_word_char(s[i]) {
        lemma_word_end(s, i + 1);
    }
}

proof fn lemma_find_char(s: Seq<char>, i: int, q: char)
    requires
        0 <= i,
    ensures
        match find_char(s, i, q) {
            Some(j) => i <= j < s.len() && s[j] == q && forall|k: int| i <= k < j ==> s[k] != q,
            None => forall|k: int| i <= k < s.len() ==> s[k] != q,
        },
    decreases s.len() - i,
{
    if i < s.len() && s[i] != q {
        lemma_find_char(s, i + 1, q);
    }
}

/// The tokens of `s` from `i` on; `None` where some text is no token.
pub open spec fn spec_lex(s: Seq<char>, i: int) -> Option<Seq<TokV>>
    decreases s.len() - i,
{
    if i < 0 || i >= s.len() {
        Some(Seq::empty())
    } else if is_space(s[i]) {
        spec_lex(s, i + 1)
    } else if is_digit(s[i]) {
        let j = digits_end(s, i);
        if j <= i || j > s.len() {
            None
        } else if j + 1 < s.len() && s[j] == '.' && is_digit(s[j + 1]) {
            let k = digits_end(s, j + 1);
            if k <= j || k > s.len() {
                None
            } else {
                cons(TokV::Float(s.subrange(i, k)), spec_lex(s, k))
            }
        } else {
            let v = digits_value(s, i, j);
            if v <= i64::MAX {
                cons(TokV::Int(v as i64), spec_lex(s, j))
            } else {
                None
            }
        }
    } else if is_quote(s[i]) {
        match find_char(s, i + 1, s[i]) {
            Some(j) => if i < j < s.len() {
                cons(TokV::Str(s.subrange(i + 1, j)), spec_lex(s, j + 1))
            } else {
                None
            },
            None => None,
        }
    } else if is_word_start(s[i]) {
        let j = word_end(s, i);
        if j <= i || j > s.len() {
            None
        } else {
            cons(word_token(s.subrange(i, j)), spec_lex(s, j))
        }
    } else if i + 1 < s.len() && two_char_punct(s[i], s[i + 1]) is Some {
        cons(TokV::Punct(two_char_punct(s[i], s[i + 1])->0), spec_lex(s, i + 2))
    } else {
        match one_char_punct(s[i]) {
            Some(p) => cons(TokV::Punct(p), spec_lex(s, i + 1)),
            None => None,
        }
    }
}

/// `pre` before the tokens of `o`.
pub open spec fn prepend(pre: Seq<TokV>, o: Option<Seq<TokV>>) -> Option<Seq<TokV>> {
    match o {
        Some(r) => Some(pre + r),
        None => None,
    }
}

fn chars_of(s: &str) -> (r: Vec<char>)
    ensures
        r@ == s@,
{
    let n = s.unicode_len();
    let mut r: Vec<char> = Vec::new();
    let mut i: usize = 0;
    while i < n
        invariant
            n == s@.len(),
            i <= n,
            r@ == s@.subrange(0, i as int),
        decreases n - i,
    {
        r.push(s.get_char(i));
        i = i + 1;
        assert(r@ =~= s@.subrange(0, i as int));
    }
    assert(s@.subrange(0, n as int) =~= s@);
    r
}

fn is_digit_exec(c: char) -> (r: bool)
    ensures
        r == is_digit(c),
{
    c >= '0' && c <= '9'
}

fn is_word_start_exec(c: char) -> (r: bool)
    ensures
        r == is_word_start(c),
{
    (c >= 'a' && c <= 'z') || (c >= 'A' && c <= 'Z') || c == '_'
}

fn is_word_char_exec(c: char) -> (r: bool)
    ensures
        r == is_word_char(c),
{
    is_word_start_exec(c) || is_digit_exec(c)
}

fn digits_end_exec(cs: &Vec<char>, i: usize) -> (r: usize)
    requires
        i <= cs@.len(),
    ensures
        r == digits_end(cs@, i as int),
{
    let mut j = i;
    while j < cs.len() && is_digit_exec(cs[j])
        invariant
            i <= j <= cs@.len(),
            digits_end(cs@, i as int) == digits_end(cs@, j as int),
        decreases cs@.len() - j,
    {
        j = j + 1;
    }
    j
}

fn word_end_exec(cs: &Vec<char>, i: usize) -> (r: usize)
    requires
        i <= cs@.len(),
    ensures
        r == word_end(cs@, i as int),
{
    let mut j = i;
    while j < cs.len() && is_word_char_exec(cs[j])
        invariant
            i <= j <= cs@.len(),
            word_end(cs@, i as int) == word_end(cs@, j as int),
        decreases cs@.len() - j,
    {
        j = j + 1;
    }
    j
}

fn find_char_exec(cs: &Vec<char>, i: usize, q: char) -> (r: Option<usize>)
    ensures
        match r {
            Some(j) => find_char(cs@, i as int, q) == Some(j as int),
            None => find_char(cs@, i as int, q) is None,
        },
{
    let mut j = i;
    while j < cs.len()
        invariant
            i <= j,
            find_char(cs@, i as int, q) == find_char(cs@, j as int, q),
        decreases cs@.len() - j,
    {
        if cs[j] == q {
            return Some(j);
        }
        j = j + 1;
    }
    None
}

proof fn lemma_digits_value_nonneg(s: Seq<char>, i: int, k: int)
    requires
        i <= k <= s.len(),
        0 <= i,
        forall|m: int| i <= m < k ==> is_digit(s[m]),
    ensures
        0 <= digits_value(s, i, k),
    decreases k - i,
{
    if k > i {
        lemma_digits_value_nonneg(s, i, k - 1);
    }
}

proof fn lemma_digits_value_grows(s: Seq<char>, i: int, k: int, j: int)
    requires
        i <= k <= j <= s.len(),
        0 <= i,
        forall|m: int| i <= m < j ==> is_digit(s[m]),
    ensures
        0 <= digits_value(s, i, k) <= digits_value(s, i, j),
    decreases j - k,
{
    lemma_digits_value_nonneg(s, i, k);
    if k < j {
        lemma_digits_value_grows(s, i, k, j - 1);
        lemma_digits_value_nonneg(s, i, j - 1);
        assert(digits_value(s, i, j) == digits_value(s, i, j - 1) * 10 + (s[j - 1] as int - '0' as int));
    }
}

/// The integer the digits `cs[i..j]` write, where it fits in an `i64`.
fn digits_value_exec(cs: &Vec<char>, i: usize, j: usize) -> (r: Option<i64>)
    requires
        i <= j <= cs@.len(),
        forall|m: int| i <= m < j ==> is_digit(cs@[m]),
    ensures
        match r {
            Some(v) => v as int == digits_value(cs@, i as int, j as int),
            None => digits_value(cs@, i as int, j as int) > i64::MAX,
        },
{
    let mut v: i64 = 0;
    let mut k = i;
    while k < j
        invariant
            i <= k <= j <= cs@.len(),
            forall|m: int| i <= m < j ==> is_digit(cs@[m]),
            v as int == digits_value(cs@, i as int, k as int),
            v >= 0,
        decreases j - k,
    {
        let d: i64 = (cs[k] as u32 - '0' as u32) as i64;
        assert(digits_value(cs@, i as int, k + 1) == digits_value(cs@, i as int, k as int) * 10 + d);
        if v > (i64::MAX - d) / 10 {
            proof {
                lemma_digits_value_grows(cs@, i as int, k + 1, j as int);
            }
            return None;
        }
        v = v * 10 + d;
        k = k + 1;
    }
    Some(v)
}

fn word_token_exec(w: &str) -> (r: Token)
    ensures
        token_view(r) == word_token(w@),
{
    proof {
        reveal_strlit("true");
        reveal_strlit("false");
        reveal_strlit("and");
        reveal_strlit("or");
        reveal_strlit("not");
        reveal_strlit("this");
        reveal_strlit("super");
        assert("true"@ =~= seq!['t', 'r', 'u', 'e']);
        assert("false"@ =~= seq!['f', 'a', 'l', 's', 'e']);
        assert("and"@ =~= seq!['a', 'n', 'd']);
        assert("or"@ =~= seq!['o', 'r']);
        assert("not"@ =~= seq!['n', 'o', 't']);
        assert("this"@ =~= seq!['t', 'h', 'i', 's']);
        assert("super"@ =~= seq!['s', 'u', 'p', 'e', 'r']);
    }
    if crate::json::str_eq(w, "true") {
        Token::Key(Keyword::True)
    } else if crate::json::str_eq(w, "false") {
        Token::Key(Keyword::False)
    } else if crate::json::str_eq(w, "and") {
        Token::Key(Keyword::And)
    } else if crate::json::str_eq(w, "or") {
        Token::Key(Keyword::Or)
    } else if crate::json::str_eq(w, "not") {
        Token::Key(Keyword::Not)
    } else if crate::json::str_eq(w, "this") {
        Token::Key(Keyword::This)
    } else if crate::json::str_eq(w, "super") {
        Token::Key(Keyword::Super)
    } else {
        Token::Word(String::from_str(w))
    }
}

fn two_char_punct_exec(a: char, b: char) -> (r: Option<Punct>)
    ensures
        r == two_char_punct(a, b),
{
    if b != '=' {
        None
    } else if a == '=' {
        Some(Punct::Eq)
    } else if a == '!' {
        Some(Punct::Ne)
    } else if a == '>' {
        Some(Punct::Ge)
    } else if a == '<' {
        Some(Punct::Le)
    } else {
        None
    }
}

fn one_char_punct_exec(c: char) -> (r: Option<Punct>)
    ensures
        r == one_char_punct(c),
{
    if c == '(' {
        Some(Punct::LParen)
    } else if c == ')' {
        Some(Punct::RParen)
    } else if c == '[' {
        Some(Punct::LBracket)
    } else if c == ']' {
        Some(Punct::RBracket)
    } else if c == '.' {
        Some(Punct::Dot)
    } else if c == ',' {
        Some(Punct::Comma)
    } else if c == '=' {
        Some(Punct::Assign)
    } else if c == '|' {
        Some(Punct::Pipe)
    } else if c == '~' {
        Some(Punct::Tilde)
    } else if c == '+' {
        Some(Punct::Plus)
    } else if c == '-' {
        Some(Punct::Minus)
    } else if c == '*' {
        Some(Punct::Star)
    } else if c == '/' {
        Some(Punct::Slash)
    } else if c == '%' {
        Some(Punct::Percent)
    } else if c == '>' {
        Some(Punct::Gt)
    } else if c == '<' {
        Some(Punct::Lt)
    } else {
        None
    }
}

/// The tokens of an expression text; `None` where some text is no token.
pub fn lex(s: &str) -> (r: Option<Vec<Token>>)
    ensures
        match r {
            Some(t) => spec_lex(s@, 0) == Some(tokens_view(t@)),
            None => spec_lex(s@, 0) is None,
        },
{
    let cs = chars_of(s);
    let n = cs.len();
    let mut toks: Vec<Token> = Vec::new();
    let mut i: usize = 0;
    assert(tokens_view(toks@) =~= Seq::<TokV>::empty());
    assert(prepend(Seq::empty(), spec_lex(cs@, 0)) == spec_lex(cs@, 0)) by {
        match spec_lex(cs@, 0) {
            Some(r) => {
                assert(Seq::<TokV>::empty() + r =~= r);
            },
            None => {},
        }
    }
    while i < n
        invariant
            n == cs@.len(),
            cs@ == s@,
            i <= n,
            spec_lex(cs@, 0) == prepend(tokens_view(toks@), spec_lex(cs@, i as int)),
        decreases n - i,
    {
        let c = cs[i];
        let ghost pre = tokens_view(toks@);
        let mut tok: Option<Token> = None;
        let mut next: usize = i + 1;
        if c == ' ' || c == '\t' || c == '\n' || c == '\r' {
        } else if is_digit_exec(c) {
            let j = digits_end_exec(&cs, i);
            proof {
                lemma_digits_end(cs@, i as int);
            }
            if j < n - 1 && cs[j] == '.' && is_digit_exec(cs[j + 1]) {
                let k = digits_end_exec(&cs, j + 1);
                proof {
                    lemma_digits_end(cs@, j + 1);
                }
                let text = s.substring_char(i, k);
                tok = Some(Token::Float(String::from_str(text)));
                next = k;
            } else {
                match digits_value_exec(&cs, i, j) {
                    Some(v) => {
                        tok = Some(Token::Int(v));
                        next = j;
                    },
                    None => {
                        return None;
                    },
                }
            }
        } else if c == '"' || c == '\'' || c == '`' {
            match find_char_exec(&cs, i + 1, c) {
                Some(j) => {
                    proof {
                        lemma_find_char(cs@, i + 1, c);
                    }
                    let text = s.substring_char(i + 1, j);
                    tok = Some(Token::Str(String::from_str(text)));
                    next = j + 1;
                },
                None => {
                    return None;
                },
            }
        } else if is_word_start_exec(c) {
            let j = word_end_exec(&cs, i);
            proof {
                lemma_word_end(cs@, i as int);
            }
            let text = s.substring_char(i, j);
            tok = Some(word_token_exec(text));
            next = j;
        } else {
            let two = if i + 1 < n {
                two_char_punct_exec(c, cs[i + 1])
            } else {
                None
            };
            match two {
                Some(p) => {
                    tok = Some(Token::Punct(p));
                    next = i + 2;
                },
                None => match one_char_punct_exec(c) {
                    Some(p) => {
                        tok = Some(Token::Punct(p));
                    },
                    None => {
                        return None;
                    },
                },
            }
        }
        match tok {
            Some(t) => {
                let ghost tv = token_view(t);
                assert(spec_lex(cs@, i as int) == cons(tv, spec_lex(cs@, next as int)));
                toks.push(t);
                proof {
                    assert(tokens_view(toks@) =~= pre.push(tv));
                    match spec_lex(cs@, next as int) {
                        Some(r) => {
                            assert(pre + (seq![tv] + r) =~= pre.push(tv) + r);
                        },
                        None => {},
                    }
                }
            },
            None => {
                assert(spec_lex(cs@, i as int) == spec_lex(cs@, next as int));
            },
        }
        i = next;
    }
    assert(tokens_view(toks@) + Seq::<TokV>::empty() =~= tokens_view(toks@));
    Some(toks)
}


// ---------------------------------------------------------------------------
// The grammar, from the loosest binding to the tightest:
//
//   expression := 'not' expression | or ('|' filter)*
//   or         := and ('or' and)*
//   and        := operand ('and' operand)*
//   operand    := 'not' operand | comparison
//   comparison := concat [('==' | '!=' | '>' | '>=' | '<' | '<=') concat]
//   concat     := sum ('~' sum)*
//   sum        := product (('+' | '-') product)*
//   product    := unary (('*' | '/' | '%') unary)*
//   unary      := '-' integer | '-' float | primary
//   primary    := integer | float | string | 'true' | 'false' | '(' expression ')'
//               | name '(' arguments ')' | identifier
//   filter     := name ['(' arguments ')']
//   arguments  := [name '=' expression (',' name '=' expression)*]
//   identifier := (name | 'this' | 'super') ('.' name | '.' 'super' | '[' integer ']' | '[' string ']')*
//
// A filter name is read in lower case. Every rule gives the expression and the
// position after it.

/// The token at `i`, if there is one.
pub open spec fn tok(t: Seq<TokV>, i: int) -> Option<TokV> {
    if 0 <= i < t.len() {
        Some(t[i])
    } else {
        None
    }
}

/// Whether the token at `i` is the punctuation `p`.
pub open spec fn is_punct(t: Seq<TokV>, i: int, p: Punct) -> bool {
    tok(t, i) == Some(TokV::Punct(p))
}

/// Whether the token at `i` is the keyword `k`.
pub open spec fn is_key(t: Seq<TokV>, i: int, k: Keyword) -> bool {
    tok(t, i) == Some(TokV::Key(k))
}

/// `k` is a position after `i` within the tokens.
pub open spec fn advanced(t: Seq<TokV>, i: int, k: int) -> bool {
    i < k <= t.len()
}

/// An expression of `v` alone: no filter, no negation.
pub open spec fn plain(v: ValueV) -> ExprV {
    ExprV { value: v, filters: Seq::empty(), negated: false }
}

/// `e` with its negation flipped.
pub open spec fn negate(e: ExprV) -> ExprV {
    ExprV { value: e.value, filters: e.filters, negated: !e.negated }
}

/// The logical expression `lhs op rhs`.
pub open spec fn logical(lhs: ExprV, rhs: ExprV, op: LogicalOperator) -> ExprV {
    plain(ValueV::Logical(Box::new(lhs), Box::new(rhs), op))
}

/// The arithmetic expression `lhs op rhs`.
pub open spec fn math(lhs: ExprV, rhs: ExprV, op: MathOperator) -> ExprV {
    plain(ValueV::Math(Box::new(lhs), Box::new(rhs), op))
}

/// `c` in lower case, where it is an ASCII capital.
pub open spec fn ascii_lower(c: char) -> char {
    if 'A' <= c <= 'Z' {
        ((c as int) + 32) as char
    } else {
        c
    }
}

/// `w` with its ASCII capitals in lower case.
pub open spec fn lower(w: Seq<char>) -> Seq<char> {
    w.map_values(|c: char| ascii_lower(c))
}

/// The comparison operator a punctuation writes.
pub open spec fn relation_operator(p: Punct) -> Option<LogicalOperator> {
    match p {
        Punct::Eq => Some(LogicalOperator::Equal),
        Punct::Ne => Some(LogicalOperator::NotEqual),
        Punct::Gt => Some(LogicalOperator::GreaterThan),
        Punct::Ge => Some(LogicalOperator::GreaterThanOrEqual),
        Punct::Lt => Some(LogicalOperator::LowerThan),
        Punct::Le => Some(LogicalOperator::LowerThanOrEqual),
        _ => None,
    }
}

/// The `+` or `-` a punctuation writes.
pub open spec fn sum_operator(p: Punct) -> Option<MathOperator> {
    match p {
        Punct::Plus => Some(MathOperator::Addition),
        Punct::Minus => Some(MathOperator::Subtraction),
        _ => None,
    }
}

/// The `*`, `/` or `%` a punctuation writes.
pub open spec fn product_operator(p: Punct) -> Option<MathOperator> {
    match p {
        Punct::Star => Some(MathOperator::Multiplication),
        Punct::Slash => Some(MathOperator::Division),
        Punct::Percent => Some(MathOperator::Modulo),
        _ => None,
    }
}

/// The punctuation at `i`, if the token there is one.
pub open spec fn punct_at(t: Seq<TokV>, i: int) -> Option<Punct> {
    match tok(t, i) {
        Some(TokV::Punct(p)) => Some(p),
        _ => None,
    }
}

/// The rule `expression`.
pub open spec fn p_expression(t: Seq<TokV>, i: int) -> Option<(ExprV, int)>
    decreases t.len() - i, 9nat,
{
    if is_key(t, i, Keyword::Not) {
        match p_expression(t, i + 1) {
            Some((e, j)) => Some((negate(e), j)),
            None => None,
        }
    } else {
        match p_or(t, i) {
            Some((e, j)) => if advanced(t, i, j) {
                p_filters(t, j, e)
            } else {
                None
            },
            None => None,
        }
    }
}

/// The filters that follow `e`, applied in turn.
pub open spec fn p_filters(t: Seq<TokV>, i: int, e: ExprV) -> Option<(ExprV, int)>
    decreases t.len() - i, 0nat,
{
    if is_punct(t, i, Punct::Pipe) {
        if e.negated {
            None
        } else {
            match p_filter(t, i + 1) {
                Some((c, j)) => if advanced(t, i, j) {
                    p_filters(
                        t,
                        j,
                        ExprV { value: e.value, filters: e.filters.push(c), negated: false },
                    )
                } else {
                    None
                },
                None => None,
            }
        }
    } else {
        Some((e, i))
    }
}

/// The rule `filter`.
pub open spec fn p_filter(t: Seq<TokV>, i: int) -> Option<(CallV, int)>
    decreases t.len() - i, 0nat,
{
    match tok(t, i) {
        Some(TokV::Word(w)) => if is_punct(t, i + 1, Punct::LParen) {
            match p_arguments(t, i + 2, Seq::empty()) {
                Some((args, j)) => Some((CallV { name: lower(w), args }, j)),
                None => None,
            }
        } else {
            Some((CallV { name: lower(w), args: Seq::empty() }, i + 1))
        },
        _ => None,
    }
}

/// The arguments after an opening parenthesis, up to and with the closing one;
/// `acc` holds those read so far.
pub open spec fn p_arguments(t: Seq<TokV>, i: int, acc: Seq<(Seq<char>, ExprV)>) -> Option<
    (Seq<(Seq<char>, ExprV)>, int),
>
    decreases t.len() - i, 0nat,
{
    if acc.len() == 0 && is_punct(t, i, Punct::RParen) {
        Some((acc, i + 1))
    } else {
        match tok(t, i) {
            Some(TokV::Word(name)) => if is_punct(t, i + 1, Punct::Assign) {
                match p_expression(t, i + 2) {
                    Some((e, j)) => if advanced(t, i, j) {
                        if is_punct(t, j, Punct::Comma) {
                            p_arguments(t, j + 1, acc.push((name, e)))
                        } else if is_punct(t, j, Punct::RParen) {
                            Some((acc.push((name, e)), j + 1))
                        } else {
                            None
                        }
                    } else {
                        None
                    },
                    None => None,
                }
            } else {
                None
            },
            _ => None,
        }
    }
}

/// The rule `or`.
pub open spec fn p_or(t: Seq<TokV>, i: int) -> Option<(ExprV, int)>
    decreases t.len() - i, 8nat,
{
    match p_and(t, i) {
        Some((e, j)) => if advanced(t, i, j) {
            p_or_rest(t, j, e)
        } else {
            None
        },
        None => None,
    }
}

/// The `or` operands that follow `lhs`.
pub open spec fn p_or_rest(t: Seq<TokV>, i: int, lhs: ExprV) -> Option<(ExprV, int)>
    decreases t.len() - i, 0nat,
{
    if is_key(t, i, Keyword::Or) {
        match p_and(t, i + 1) {
            Some((rhs, j)) => if advanced(t, i, j) {
                p_or_rest(t, j, logical(lhs, rhs, LogicalOperator::Or))
            } else {
                None
            },
            None => None,
        }
    } else {
        Some((lhs, i))
    }
}

/// The rule `and`.
pub open spec fn p_and(t: Seq<TokV>, i: int) -> Option<(ExprV, int)>
    decreases t.len() - i, 7nat,
{
    match p_operand(t, i) {
        Some((e, j)) => if advanced(t, i, j) {
            p_and_rest(t, j, e)
        } else {
            None
        },
        None => None,
    }
}

/// The `and` operands that follow `lhs`.
pub open spec fn p_and_rest(t: Seq<TokV>, i: int, lhs: ExprV) -> Option<(ExprV, int)>
    decreases t.len() - i, 0nat,
{
    if is_key(t, i, Keyword::And) {
        match p_operand(t, i + 1) {
            Some((rhs, j)) => if advanced(t, i, j) {
                p_and_rest(t, j, logical(lhs, rhs, LogicalOperator::And))
            } else {
                None
            },
            None => None,
        }
    } else {
        Some((lhs, i))
    }
}

/// The rule `operand`.
pub open spec fn p_operand(t: Seq<TokV>, i: int) -> Option<(ExprV, int)>
    decreases t.len() - i, 6nat,
{
    if is_key(t, i, Keyword::Not) {
        match p_operand(t, i + 1) {
            Some((e, j)) => Some((negate(e), j)),
            None => None,
        }
    } else {
        p_comparison(t, i)
    }
}

/// The rule `comparison`.
pub open spec fn p_comparison(t: Seq<TokV>, i: int) -> Option<(ExprV, int)>
    decreases t.len() - i, 5nat,
{
    match p_concat(t, i) {
        Some((lhs, j)) => if advanced(t, i, j) {
            match punct_at(t, j) {
                Some(p) => match relation_operator(p) {
                    Some(op) => match p_concat(t, j + 1) {
                        Some((rhs, k)) => Some((logical(lhs, rhs, op), k)),
                        None => None,
                    },
                    None => Some((lhs, j)),
                },
                None => Some((lhs, j)),
            }
        } else {
            None
        },
        None => None,
    }
}

/// The rule `concat`.
pub open spec fn p_concat(t: Seq<TokV>, i: int) -> Option<(ExprV, int)>
    decreases t.len() - i, 4nat,
{
    match p_sum(t, i) {
        Some((first, j)) => if advanced(t, i, j) {
            if is_punct(t, j, Punct::Tilde) {
                match p_concat_rest(t, j, seq![first.value]) {
                    Some((values, k)) => Some((plain(ValueV::Concat(values)), k)),
                    None => None,
                }
            } else {
                Some((first, j))
            }
        } else {
            None
        },
        None => None,
    }
}

/// The `~` operands that follow `values`.
pub open spec fn p_concat_rest(t: Seq<TokV>, i: int, values: Seq<ValueV>) -> Option<
    (Seq<ValueV>, int),
>
    decreases t.len() - i, 0nat,
{
    if is_punct(t, i, Punct::Tilde) {
        match p_sum(t, i + 1) {
            Some((e, j)) => if advanced(t, i, j) {
                p_concat_rest(t, j, values.push(e.value))
            } else {
                None
            },
            None => None,
        }
    } else {
        Some((values, i))
    }
}

/// The rule `sum`.
pub open spec fn p_sum(t: Seq<TokV>, i: int) -> Option<(ExprV, int)>
    decreases t.len() - i, 3nat,
{
    match p_product(t, i) {
        Some((e, j)) => if advanced(t, i, j) {
            p_sum_rest(t, j, e)
        } else {
            None
        },
        None => None,
    }
}

/// The `+` and `-` operands that follow `lhs`.
pub open spec fn p_sum_rest(t: Seq<TokV>, i: int, lhs: ExprV) -> Option<(ExprV, int)>
    decreases t.len() - i, 0nat,
{
    match punct_at(t, i) {
        Some(p) => match sum_operator(p) {
            Some(op) => match p_product(t, i + 1) {
                Some((rhs, j)) => if advanced(t, i, j) {
                    p_sum_rest(t, j, math(lhs, rhs, op))
                } else {
                    None
                },
                None => None,
            },
            None => Some((lhs, i)),
        },
        None => Some((lhs, i)),
    }
}

/// The rule `product`.
pub open spec fn p_product(t: Seq<TokV>, i: int) -> Option<(ExprV, int)>
    decreases t.len() - i, 2nat,
{
    match p_unary(t, i) {
        Some((e, j)) => if advanced(t, i, j) {
            p_product_rest(t, j, e)
        } else {
            None
        },
        None => None,
    }
}

/// The `*`, `/` and `%` operands that follow `lhs`.
pub open spec fn p_product_rest(t: Seq<TokV>, i: int, lhs: ExprV) -> Option<(ExprV, int)>
    decreases t.len() - i, 0nat,
{
    match punct_at(t, i) {
        Some(p) => match product_operator(p) {
            Some(op) => match p_unary(t, i + 1) {
                Some((rhs, j)) => if advanced(t, i, j) {
                    p_product_rest(t, j, math(lhs, rhs, op))
                } else {
                    None
                },
                None => None,
            },
            None => Some((lhs, i)),
        },
        None => Some((lhs, i)),
    }
}

/// The rule `unary`.
pub open spec fn p_unary(t: Seq<TokV>, i: int) -> Option<(ExprV, int)>
    decreases t.len() - i, 1nat,
{
    if is_punct(t, i, Punct::Minus) {
        match tok(t, i + 1) {
            Some(TokV::Int(x)) => if x == i64::MIN {
                None
            } else {
                Some((plain(ValueV::Integer((-x) as i64)), i + 2))
            },
            Some(TokV::Float(f)) => Some((plain(ValueV::Float(seq!['-'] + f)), i + 2)),
            _ => None,
        }
    } else {
        p_primary(t, i)
    }
}

/// The rule `primary`.
pub open spec fn p_primary(t: Seq<TokV>, i: int) -> Option<(ExprV, int)>
    decreases t.len() - i, 0nat,
{
    match tok(t, i) {
        Some(TokV::Int(x)) => Some((plain(ValueV::Integer(x)), i + 1)),
        Some(TokV::Float(f)) => Some((plain(ValueV::Float(f)), i + 1)),
        Some(TokV::Str(s)) => Some((plain(ValueV::Str(s)), i + 1)),
        Some(TokV::Key(Keyword::True)) => Some((plain(ValueV::Boolean(true)), i + 1)),
        Some(TokV::Key(Keyword::False)) => Some((plain(ValueV::Boolean(false)), i + 1)),
        Some(TokV::Punct(Punct::LParen)) => match p_expression(t, i + 1) {
            Some((e, j)) => if is_punct(t, j, Punct::RParen) {
                Some((e, j + 1))
            } else {
                None
            },
            None => None,
        },
        Some(TokV::Word(w)) => if is_punct(t, i + 1, Punct::LParen) {
            match p_arguments(t, i + 2, Seq::empty()) {
                Some((args, j)) => Some((plain(ValueV::Call(CallV { name: w, args })), j)),
                None => None,
            }
        } else {
            match p_identifier_rest(t, i + 1, seq![IdV::Name(w)]) {
                Some((id, j)) => Some((plain(ValueV::Identifier(id)), j)),
                None => None,
            }
        },
        Some(TokV::Key(Keyword::This)) => match p_identifier_rest(t, i + 1, seq![IdV::This]) {
            Some((id, j)) => Some((plain(ValueV::Identifier(id)), j)),
            None => None,
        },
        Some(TokV::Key(Keyword::Super)) => match p_identifier_rest(t, i + 1, seq![IdV::Super]) {
            Some((id, j)) => Some((plain(ValueV::Identifier(id)), j)),
            None => None,
        },
        _ => None,
    }
}

/// The steps of an identifier after the first; `acc` holds those read so far.
pub open spec fn p_identifier_rest(t: Seq<TokV>, i: int, acc: Seq<IdV>) -> Option<
    (Seq<IdV>, int),
>
    decreases t.len() - i,
{
    if i < 0 || i >= t.len() {
        Some((acc, i))
    } else if is_punct(t, i, Punct::Dot) {
        match tok(t, i + 1) {
            Some(TokV::Word(w)) => p_identifier_rest(t, i + 2, acc.push(IdV::Name(w))),
            Some(TokV::Key(Keyword::Super)) => p_identifier_rest(t, i + 2, acc.push(IdV::Super)),
            _ => None,
        }
    } else if is_punct(t, i, Punct::LBracket) && is_punct(t, i + 2, Punct::RBracket) {
        match tok(t, i + 1) {
            Some(TokV::Int(x)) => p_identifier_rest(t, i + 3, acc.push(IdV::Index(x as isize))),
            Some(TokV::Str(s)) => p_identifier_rest(t, i + 3, acc.push(IdV::Name(s))),
            _ => None,
        }
    } else {
        Some((acc, i))
    }
}

/// The expression a text writes; `None` where the text is no expression.
pub open spec fn spec_parse(s: Seq<char>) -> Option<ExprV> {
    match spec_lex(s, 0) {
        Some(t) => match p_expression(t, 0) {
            Some((e, j)) => if j == t.len() {
                Some(e)
            } else {
                None
            },
            None => None,
        },
        None => None,
    }
}


/// Whether an executable parse result agrees with the rule it follows.
pub open spec fn parsed(r: Option<(Expression, usize)>, s: Option<(ExprV, int)>) -> bool {
    match r {
        Some((e, j)) => s == Some((expr_view(e), j as int)),
        None => s is None,
    }
}

fn tok_at(t: &Vec<Token>, i: usize) -> (r: Option<&Token>)
    ensures
        match r {
            Some(x) => tok(tokens_view(t@), i as int) == Some(token_view(*x)) && i < t.len(),
            None => tok(tokens_view(t@), i as int) is None,
        },
{
    if i < t.len() {
        Some(&t[i])
    } else {
        None
    }
}

fn is_punct_exec(t: &Vec<Token>, i: usize, p: Punct) -> (r: bool)
    ensures
        r == is_punct(tokens_view(t@), i as int, p),
        r ==> i < t.len(),
{
    match tok_at(t, i) {
        Some(Token::Punct(q)) => *q == p,
        _ => false,
    }
}

fn is_key_exec(t: &Vec<Token>, i: usize, k: Keyword) -> (r: bool)
    ensures
        r == is_key(tokens_view(t@), i as int, k),
        r ==> i < t.len(),
{
    match tok_at(t, i) {
        Some(Token::Key(q)) => *q == k,
        _ => false,
    }
}

fn punct_at_exec(t: &Vec<Token>, i: usize) -> (r: Option<Punct>)
    ensures
        r == punct_at(tokens_view(t@), i as int),
        r is Some ==> i < t.len(),
{
    match tok_at(t, i) {
        Some(Token::Punct(q)) => Some(*q),
        _ => None,
    }
}

fn plain_exec(v: ExpressionValue) -> (r: Expression)
    ensures
        expr_view(r) == plain(value_view(v)),
{
    let r = Expression { value: v, filters: Vec::new(), negated: false };
    assert(calls_view(r.filters@) =~= Seq::<CallV>::empty());
    r
}

fn negate_exec(e: Expression) -> (r: Expression)
    ensures
        expr_view(r) == negate(expr_view(e)),
{
    Expression { value: e.value, filters: e.filters, negated: !e.negated }
}

fn logical_exec(lhs: Expression, rhs: Expression, op: LogicalOperator) -> (r: Expression)
    ensures
        expr_view(r) == logical(expr_view(lhs), expr_view(rhs), op),
{
    plain_exec(
        ExpressionValue::Logical(
            LogicalExpression { lhs: Box::new(lhs), rhs: Box::new(rhs), operator: op },
        ),
    )
}

fn math_exec(lhs: Expression, rhs: Expression, op: MathOperator) -> (r: Expression)
    ensures
        expr_view(r) == math(expr_view(lhs), expr_view(rhs), op),
{
    plain_exec(
        ExpressionValue::Math(MathExpression { lhs: Box::new(lhs), rhs: Box::new(rhs), operator: op }),
    )
}

fn relation_operator_exec(p: Punct) -> (r: Option<LogicalOperator>)
    ensures
        r == relation_operator(p),
{
    match p {
        Punct::Eq => Some(LogicalOperator::Equal),
        Punct::Ne => Some(LogicalOperator::NotEqual),
        Punct::Gt => Some(LogicalOperator::GreaterThan),
        Punct::Ge => Some(LogicalOperator::GreaterThanOrEqual),
        Punct::Lt => Some(LogicalOperator::LowerThan),
        Punct::Le => Some(LogicalOperator::LowerThanOrEqual),
        _ => None,
    }
}

fn sum_operator_exec(p: Punct) -> (r: Option<MathOperator>)
    ensures
        r == sum_operator(p),
{
    match p {
        Punct::Plus => Some(MathOperator::Addition),
        Punct::Minus => Some(MathOperator::Subtraction),
        _ => None,
    }
}

fn product_operator_exec(p: Punct) -> (r: Option<MathOperator>)
    ensures
        r == product_operator(p),
{
    match p {
        Punct::Star => Some(MathOperator::Multiplication),
        Punct::Slash => Some(MathOperator::Division),
        Punct::Percent => Some(MathOperator::Modulo),
        _ => None,
    }
}

/// `w` with its ASCII capitals in lower case.
fn lower_exec(w: &str) -> (r: String)
    ensures
        r@ == lower(w@),
{
    let letters = "abcdefghijklmnopqrstuvwxyz";
    proof {
        reveal_strlit("abcdefghijklmnopqrstuvwxyz");
    }
    let n = w.unicode_len();
    let mut r = String::new();
    let mut i: usize = 0;
    while i < n
        invariant
            n == w@.len(),
            i <= n,
            letters@ == "abcdefghijklmnopqrstuvwxyz"@,
            letters@.len() == 26,
            forall|k: int| 0 <= k < 26 ==> #[trigger] letters@[k] == (('a' as int) + k) as char,
            r@ == lower(w@.subrange(0, i as int)),
        decreases n - i,
    {
        let c = w.get_char(i);
        if c >= 'A' && c <= 'Z' {
            let k = (c as u32 - 'A' as u32) as usize;
            r.append(letters.substring_char(k, k + 1));
        } else {
            r.append(w.substring_char(i, i + 1));
        }
        i = i + 1;
        assert(r@ =~= lower(w@.subrange(0, i as int)));
    }
    assert(w@.subrange(0, n as int) =~= w@);
    r
}

fn p_expression_exec(t: &Vec<Token>, i: usize) -> (r: Option<(Expression, usize)>)
    ensures
        parsed(r, p_expression(tokens_view(t@), i as int)),
    decreases t@.len() - i, 9nat,
{
    if is_key_exec(t, i, Keyword::Not) {
        match p_expression_exec(t, i + 1) {
            Some((e, j)) => Some((negate_exec(e), j)),
            None => None,
        }
    } else {
        match p_or_exec(t, i) {
            Some((e, j)) => if i < j && j <= t.len() {
                p_filters_exec(t, j, e)
            } else {
                None
            },
            None => None,
        }
    }
}

fn p_filters_exec(t: &Vec<Token>, i: usize, e: Expression) -> (r: Option<(Expression, usize)>)
    ensures
        parsed(r, p_filters(tokens_view(t@), i as int, expr_view(e))),
    decreases t@.len() - i, 0nat,
{
    if is_punct_exec(t, i, Punct::Pipe) {
        if e.negated {
            None
        } else {
            match p_filter_exec(t, i + 1) {
                Some((c, j)) => if i < j && j <= t.len() {
                    let mut filters = e.filters;
                    let ghost old_filters = filters@;
                    let ghost cv = call_view(c);
                    filters.push(c);
                    proof {
                        lemma_calls_view_push(old_filters, c);
                    }
                    p_filters_exec(t, j, Expression { value: e.value, filters, negated: false })
                } else {
                    None
                },
                None => None,
            }
        }
    } else {
        Some((e, i))
    }
}

/// Whether an executable filter parse agrees with the rule it follows.
pub open spec fn parsed_call(r: Option<(FunctionCall, usize)>, s: Option<(CallV, int)>) -> bool {
    match r {
        Some((c, j)) => s == Some((call_view(c), j as int)),
        None => s is None,
    }
}

fn p_filter_exec(t: &Vec<Token>, i: usize) -> (r: Option<(FunctionCall, usize)>)
    ensures
        parsed_call(r, p_filter(tokens_view(t@), i as int)),
    decreases t@.len() - i, 0nat,
{
    match tok_at(t, i) {
        Some(Token::Word(w)) => if is_punct_exec(t, i + 1, Punct::LParen) {
            match p_arguments_exec(t, i + 2, Vec::new()) {
                Some((args, j)) => Some((FunctionCall { name: lower_exec(w.as_str()), args }, j)),
                None => None,
            }
        } else {
            let r = FunctionCall { name: lower_exec(w.as_str()), args: Vec::new() };
            assert(args_view(r.args@) =~= Seq::<(Seq<char>, ExprV)>::empty());
            Some((r, i + 1))
        },
        _ => None,
    }
}

fn p_arguments_exec(t: &Vec<Token>, i: usize, acc: Vec<(String, Expression)>) -> (r: Option<
    (Vec<(String, Expression)>, usize),
>)
    ensures
        match r {
            Some((a, j)) => p_arguments(tokens_view(t@), i as int, args_view(acc@)) == Some(
                (args_view(a@), j as int),
            ),
            None => p_arguments(tokens_view(t@), i as int, args_view(acc@)) is None,
        },
    decreases t@.len() - i, 0nat,
{
    proof {
        crate::ast::lemma_args_view(acc@);
    }
    if acc.len() == 0 && is_punct_exec(t, i, Punct::RParen) {
        return Some((acc, i + 1));
    }
    match tok_at(t, i) {
        Some(Token::Word(name)) => if is_punct_exec(t, i + 1, Punct::Assign) {
            match p_expression_exec(t, i + 2) {
                Some((e, j)) => if i < j && j <= t.len() {
                    let mut acc = acc;
                    let ghost before = acc@;
                    let entry = (name.clone(), e);
                    let ghost ge = entry;
                    acc.push(entry);
                    proof {
                        lemma_args_view_push(before, ge);
                    }
                    if is_punct_exec(t, j, Punct::Comma) {
                        p_arguments_exec(t, j + 1, acc)
                    } else if is_punct_exec(t, j, Punct::RParen) {
                        Some((acc, j + 1))
                    } else {
                        None
                    }
                } else {
                    None
                },
                None => None,
            }
        } else {
            None
        },
        _ => None,
    }
}

fn p_or_exec(t: &Vec<Token>, i: usize) -> (r: Option<(Expression, usize)>)
    ensures
        parsed(r, p_or(tokens_view(t@), i as int)),
    decreases t@.len() - i, 8nat,
{
    match p_and_exec(t, i) {
        Some((e, j)) => if i < j && j <= t.len() {
            p_or_rest_exec(t, j, e)
        } else {
            None
        },
        None => None,
    }
}

fn p_or_rest_exec(t: &Vec<Token>, i: usize, lhs: Expression) -> (r: Option<(Expression, usize)>)
    ensures
        parsed(r, p_or_rest(tokens_view(t@), i as int, expr_view(lhs))),
    decreases t@.len() - i, 0nat,
{
    if is_key_exec(t, i, Keyword::Or) {
        match p_and_exec(t, i + 1) {
            Some((rhs, j)) => if i < j && j <= t.len() {
                p_or_rest_exec(t, j, logical_exec(lhs, rhs, LogicalOperator::Or))
            } else {
                None
            },
            None => None,
        }
    } else {
        Some((lhs, i))
    }
}

fn p_and_exec(t: &Vec<Token>, i: usize) -> (r: Option<(Expression, usize)>)
    ensures
        parsed(r, p_and(tokens_view(t@), i as int)),
    decreases t@.len() - i, 7nat,
{
    match p_operand_exec(t, i) {
        Some((e, j)) => if i < j && j <= t.len() {
            p_and_rest_exec(t, j, e)
        } else {
            None
        },
        None => None,
    }
}

fn p_and_rest_exec(t: &Vec<Token>, i: usize, lhs: Expression) -> (r: Option<(Expression, usize)>)
    ensures
        parsed(r, p_and_rest(tokens_view(t@), i as int, expr_view(lhs))),
    decreases t@.len() - i, 0nat,
{
    if is_key_exec(t, i, Keyword::And) {
        match p_operand_exec(t, i + 1) {
            Some((rhs, j)) => if i < j && j <= t.len() {
                p_and_rest_exec(t, j, logical_exec(lhs, rhs, LogicalOperator::And))
            } else {
                None
            },
            None => None,
        }
    } else {
        Some((lhs, i))
    }
}

fn p_operand_exec(t: &Vec<Token>, i: usize) -> (r: Option<(Expression, usize)>)
    ensures
        parsed(r, p_operand(tokens_view(t@), i as int)),
    decreases t@.len() - i, 6nat,
{
    if is_key_exec(t, i, Keyword::Not) {
        match p_operand_exec(t, i + 1) {
            Some((e, j)) => Some((negate_exec(e), j)),
            None => None,
        }
    } else {
        p_comparison_exec(t, i)
    }
}

fn p_comparison_exec(t: &Vec<Token>, i: usize) -> (r: Option<(Expression, usize)>)
    ensures
        parsed(r, p_comparison(tokens_view(t@), i as int)),
    decreases t@.len() - i, 5nat,
{
    match p_concat_exec(t, i) {
        Some((lhs, j)) => if i < j && j <= t.len() {
            match punct_at_exec(t, j) {
                Some(p) => match relation_operator_exec(p) {
                    Some(op) => match p_concat_exec(t, j + 1) {
                        Some((rhs, k)) => Some((logical_exec(lhs, rhs, op), k)),
                        None => None,
                    },
                    None => Some((lhs, j)),
                },
                None => Some((lhs, j)),
            }
        } else {
            None
        },
        None => None,
    }
}

fn p_concat_exec(t: &Vec<Token>, i: usize) -> (r: Option<(Expression, usize)>)
    ensures
        parsed(r, p_concat(tokens_view(t@), i as int)),
    decreases t@.len() - i, 4nat,
{
    match p_sum_exec(t, i) {
        Some((first, j)) => if i < j && j <= t.len() {
            if is_punct_exec(t, j, Punct::Tilde) {
                let mut values: Vec<ExpressionValue> = Vec::new();
                let ghost fv = value_view(first.value);
                values.push(first.value);
                assert(values_view(values@) =~= seq![fv]) by {
                    crate::ast::lemma_values_view(values@);
                }
                match p_concat_rest_exec(t, j, values) {
                    Some((values, k)) => Some(
                        (plain_exec(ExpressionValue::StringConcat(StringConcat { values })), k),
                    ),
                    None => None,
                }
            } else {
                Some((first, j))
            }
        } else {
            None
        },
        None => None,
    }
}

fn p_concat_rest_exec(t: &Vec<Token>, i: usize, values: Vec<ExpressionValue>) -> (r: Option<
    (Vec<ExpressionValue>, usize),
>)
    ensures
        match r {
            Some((v, j)) => p_concat_rest(tokens_view(t@), i as int, values_view(values@)) == Some(
                (values_view(v@), j as int),
            ),
            None => p_concat_rest(tokens_view(t@), i as int, values_view(values@)) is None,
        },
    decreases t@.len() - i, 0nat,
{
    if is_punct_exec(t, i, Punct::Tilde) {
        match p_sum_exec(t, i + 1) {
            Some((e, j)) => if i < j && j <= t.len() {
                let mut values = values;
                let ghost before = values@;
                let ghost ev = e.value;
                values.push(e.value);
                proof {
                    lemma_values_view_push(before, ev);
                }
                p_concat_rest_exec(t, j, values)
            } else {
                None
            },
            None => None,
        }
    } else {
        Some((values, i))
    }
}

fn p_sum_exec(t: &Vec<Token>, i: usize) -> (r: Option<(Expression, usize)>)
    ensures
        parsed(r, p_sum(tokens_view(t@), i as int)),
    decreases t@.len() - i, 3nat,
{
    match p_product_exec(t, i) {
        Some((e, j)) => if i < j && j <= t.len() {
            p_sum_rest_exec(t, j, e)
        } else {
            None
        },
        None => None,
    }
}

fn p_sum_rest_exec(t: &Vec<Token>, i: usize, lhs: Expression) -> (r: Option<(Expression, usize)>)
    ensures
        parsed(r, p_sum_rest(tokens_view(t@), i as int, expr_view(lhs))),
    decreases t@.len() - i, 0nat,
{
    match punct_at_exec(t, i) {
        Some(p) => match sum_operator_exec(p) {
            Some(op) => match p_product_exec(t, i + 1) {
                Some((rhs, j)) => if i < j && j <= t.len() {
                    p_sum_rest_exec(t, j, math_exec(lhs, rhs, op))
                } else {
                    None
                },
                None => None,
            },
            None => Some((lhs, i)),
        },
        None => Some((lhs, i)),
    }
}

fn p_product_exec(t: &Vec<Token>, i: usize) -> (r: Option<(Expression, usize)>)
    ensures
        parsed(r, p_product(tokens_view(t@), i as int)),
    decreases t@.len() - i, 2nat,
{
    match p_unary_exec(t, i) {
        Some((e, j)) => if i < j && j <= t.len() {
            p_product_rest_exec(t, j, e)
        } else {
            None
        },
        None => None,
    }
}

fn p_product_rest_exec(t: &Vec<Token>, i: usize, lhs: Expression) -> (r: Option<
    (Expression, usize),
>)
    ensures
        parsed(r, p_product_rest(tokens_view(t@), i as int, expr_view(lhs))),
    decreases t@.len() - i, 0nat,
{
    match punct_at_exec(t, i) {
        Some(p) => match product_operator_exec(p) {
            Some(op) => match p_unary_exec(t, i + 1) {
                Some((rhs, j)) => if i < j && j <= t.len() {
                    p_product_rest_exec(t, j, math_exec(lhs, rhs, op))
                } else {
                    None
                },
                None => None,
            },
            None => Some((lhs, i)),
        },
        None => Some((lhs, i)),
    }
}

fn p_unary_exec(t: &Vec<Token>, i: usize) -> (r: Option<(Expression, usize)>)
    ensures
        parsed(r, p_unary(tokens_view(t@), i as int)),
    decreases t@.len() - i, 1nat,
{
    if is_punct_exec(t, i, Punct::Minus) {
        match tok_at(t, i + 1) {
            Some(Token::Int(x)) => if *x == i64::MIN {
                None
            } else {
                Some((plain_exec(ExpressionValue::Integer(-*x)), i + 2))
            },
            Some(Token::Float(f)) => {
                let mut s = String::from_str("-");
                proof {
                    reveal_strlit("-");
                }
                s.append(f.as_str());
                assert(s@ =~= seq!['-'] + f@);
                Some((plain_exec(ExpressionValue::Float(s)), i + 2))
            },
            _ => None,
        }
    } else {
        p_primary_exec(t, i)
    }
}

fn identifier_exec(v: Vec<IdentifierValue>) -> (r: Expression)
    ensures
        expr_view(r) == plain(ValueV::Identifier(v@.map_values(|x: IdentifierValue| crate::ast::id_value_view(x)))),
{
    plain_exec(ExpressionValue::Identifier(Identifier { values: v }))
}

#[verifier::rlimit(40)]
fn p_primary_exec(t: &Vec<Token>, i: usize) -> (r: Option<(Expression, usize)>)
    ensures
        parsed(r, p_primary(tokens_view(t@), i as int)),
    decreases t@.len() - i, 0nat,
{
    match tok_at(t, i) {
        Some(Token::Int(x)) => Some((plain_exec(ExpressionValue::Integer(*x)), i + 1)),
        Some(Token::Float(f)) => Some((plain_exec(ExpressionValue::Float(f.clone())), i + 1)),
        Some(Token::Str(s)) => Some((plain_exec(ExpressionValue::String(s.clone())), i + 1)),
        Some(Token::Key(Keyword::True)) => Some((plain_exec(ExpressionValue::Boolean(true)), i + 1)),
        Some(Token::Key(Keyword::False)) => Some(
            (plain_exec(ExpressionValue::Boolean(false)), i + 1),
        ),
        Some(Token::Punct(Punct::LParen)) => match p_expression_exec(t, i + 1) {
            Some((e, j)) => if is_punct_exec(t, j, Punct::RParen) {
                Some((e, j + 1))
            } else {
                None
            },
            None => None,
        },
        Some(Token::Word(w)) => if is_punct_exec(t, i + 1, Punct::LParen) {
            match p_arguments_exec(t, i + 2, Vec::new()) {
                Some((args, j)) => Some(
                    (
                        plain_exec(
                            ExpressionValue::FunctionCall(FunctionCall { name: w.clone(), args }),
                        ),
                        j,
                    ),
                ),
                None => None,
            }
        } else {
            let mut acc: Vec<IdentifierValue> = Vec::new();
            acc.push(IdentifierValue::Name(w.clone()));
            assert(ids_view(acc@) =~= seq![IdV::Name(w@)]);
            match p_identifier_rest_exec(t, i + 1, acc) {
                Some((id, j)) => Some((identifier_exec(id), j)),
                None => None,
            }
        },
        Some(Token::Key(Keyword::This)) => {
            let mut acc: Vec<IdentifierValue> = Vec::new();
            acc.push(IdentifierValue::This);
            assert(ids_view(acc@) =~= seq![IdV::This]);
            match p_identifier_rest_exec(t, i + 1, acc) {
                Some((id, j)) => Some((identifier_exec(id), j)),
                None => None,
            }
        },
        Some(Token::Key(Keyword::Super)) => {
            let mut acc: Vec<IdentifierValue> = Vec::new();
            acc.push(IdentifierValue::Super);
            assert(ids_view(acc@) =~= seq![IdV::Super]);
            match p_identifier_rest_exec(t, i + 1, acc) {
                Some((id, j)) => Some((identifier_exec(id), j)),
                None => None,
            }
        },
        _ => None,
    }
}

/// The mathematical values of identifier steps.
pub open spec fn ids_view(v: Seq<IdentifierValue>) -> Seq<IdV> {
    v.map_values(|x: IdentifierValue| crate::ast::id_value_view(x))
}

fn p_identifier_rest_exec(t: &Vec<Token>, i: usize, acc: Vec<IdentifierValue>) -> (r: Option<
    (Vec<IdentifierValue>, usize),
>)
    ensures
        match r {
            Some((v, j)) => p_identifier_rest(tokens_view(t@), i as int, ids_view(acc@)) == Some(
                (ids_view(v@), j as int),
            ),
            None => p_identifier_rest(tokens_view(t@), i as int, ids_view(acc@)) is None,
        },
    decreases t@.len() - i,
{
    if i >= t.len() {
        return Some((acc, i));
    }
    let mut acc = acc;
    let ghost before = acc@;
    if is_punct_exec(t, i, Punct::Dot) {
        match tok_at(t, i + 1) {
            Some(Token::Word(w)) => {
                acc.push(IdentifierValue::Name(w.clone()));
                assert(ids_view(acc@) =~= ids_view(before).push(IdV::Name(w@)));
                p_identifier_rest_exec(t, i + 2, acc)
            },
            Some(Token::Key(Keyword::Super)) => {
                acc.push(IdentifierValue::Super);
                assert(ids_view(acc@) =~= ids_view(before).push(IdV::Super));
                p_identifier_rest_exec(t, i + 2, acc)
            },
            _ => None,
        }
    } else if is_punct_exec(t, i, Punct::LBracket) && t.len() - i > 2 && is_punct_exec(
        t,
        i + 2,
        Punct::RBracket,
    ) {
        match tok_at(t, i + 1) {
            Some(Token::Int(x)) => {
                acc.push(IdentifierValue::Index(*x as isize));
                assert(ids_view(acc@) =~= ids_view(before).push(IdV::Index(*x as isize)));
                p_identifier_rest_exec(t, i + 3, acc)
            },
            Some(Token::Str(s)) => {
                acc.push(IdentifierValue::Name(s.clone()));
                assert(ids_view(acc@) =~= ids_view(before).push(IdV::Name(s@)));
                p_identifier_rest_exec(t, i + 3, acc)
            },
            _ => None,
        }
    } else {
        Some((acc, i))
    }
}

/// Reads an expression from its text; `None` where the text is no expression.
pub fn parse_expression(s: &str) -> (r: Option<Expression>)
    ensures
        match r {
            Some(e) => spec_parse(s@) == Some(expr_view(e)),
            None => spec_parse(s@) is None,
        },
{
    match lex(s) {
        Some(t) => match p_expression_exec(&t, 0) {
            Some((e, j)) => if j == t.len() {
                Some(e)
            } else {
                None
            },
            None => None,
        },
        None => None,
    }
}

} // verus!
