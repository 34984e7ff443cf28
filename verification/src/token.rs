//! Tokens of the source language and the lexer that produces them.
//!
//! The lexer is described by [`lex`], a function on sequences of characters;
//! [`Token::parse`] computes it.

use vstd::prelude::*;
use vstd::string::*;

verus! {

/// An operator, a punctuation mark, or the keyword `return`.
#[derive(Clone, Copy, Debug, PartialEq, Eq, Structural)]
pub enum Op {
    Plus,
    Minus,
    Star,
    Slash,
    LParen,
    RParen,
    Lt,
    Le,
    Gt,
    Ge,
    EqEq,
    Ne,
    Assign,
    Semicolon,
    Return,
}

impl Op {
    /// The spelling of the operator in source text.
    pub open spec fn text(self) -> Seq<char> {
        match self {
            Op::Plus => seq!['+'],
            Op::Minus => seq!['-'],
            Op::Star => seq!['*'],
            Op::Slash => seq!['/'],
            Op::LParen => seq!['('],
            Op::RParen => seq![')'],
            Op::Lt => seq!['<'],
            Op::Le => seq!['<', '='],
            Op::Gt => seq!['>'],
            Op::Ge => seq!['>', '='],
            Op::EqEq => seq!['=', '='],
            Op::Ne => seq!['!', '='],
            Op::Assign => seq!['='],
            Op::Semicolon => seq![';'],
            Op::Return => seq!['r', 'e', 't', 'u', 'r', 'n'],
        }
    }
}

/// The classes of characters that the lexer takes in runs.
#[derive(Clone, Copy, Debug, PartialEq, Eq, Structural)]
pub enum CharClass {
    /// Characters with the Unicode property `White_Space`.
    Space,
    /// The ASCII digits `0` to `9`.
    Digit,
    /// The ASCII lower-case letters `a` to `z`.
    Lower,
}

impl CharClass {
    /// Whether `c` belongs to the class.
    pub open spec fn holds(self, c: char) -> bool {
        match self {
            CharClass::Space => {
                ||| '\u{9}' <= c <= '\u{d}'
                ||| c == ' '
                ||| c == '\u{85}'
                ||| c == '\u{a0}'
                ||| c == '\u{1680}'
                ||| '\u{2000}' <= c <= '\u{200a}'
                ||| c == '\u{2028}'
                ||| c == '\u{2029}'
                ||| c == '\u{202f}'
                ||| c == '\u{205f}'
                ||| c == '\u{3000}'
            },
            CharClass::Digit => '0' <= c <= '9',
            CharClass::Lower => 'a' <= c <= 'z',
        }
    }

    /// Tests whether `c` belongs to the class.
    pub fn contains(self, c: char) -> (b: bool)
        ensures
            b == self.holds(c),
    {
        match self {
            CharClass::Space => {
                ('\u{9}' <= c && c <= '\u{d}') || c == ' ' || c == '\u{85}' || c == '\u{a0}' || c
                    == '\u{1680}' || ('\u{2000}' <= c && c <= '\u{200a}') || c == '\u{2028}' || c
                    == '\u{2029}' || c == '\u{202f}' || c == '\u{205f}' || c == '\u{3000}'
            },
            CharClass::Digit => '0' <= c && c <= '9',
            CharClass::Lower => 'a' <= c && c <= 'z',
        }
    }
}

/// The length of the longest prefix of `s` whose characters all belong to
/// `class`.
pub open spec fn run_len(s: Seq<char>, class: CharClass) -> nat
    decreases s.len(),
{
    if s.len() > 0 && class.holds(s[0]) {
        1 + run_len(s.skip(1), class)
    } else {
        0
    }
}

/// A prefix of length `n` is the longest run of `class` as soon as all of it
/// belongs to the class and the character after it, if any, does not.
pub proof fn lemma_run_len_unique(s: Seq<char>, class: CharClass, n: nat)
    requires
        n <= s.len(),
        forall|j: int| 0 <= j < n ==> class.holds(#[trigger] s[j]),
        n == s.len() || !class.holds(s[n as int]),
    ensures
        run_len(s, class) == n,
    decreases n,
{
    if n > 0 {
        let t = s.skip(1);
        assert forall|j: int| 0 <= j < n - 1 implies class.holds(#[trigger] t[j]) by {
            assert(t[j] == s[j + 1]);
        }
        lemma_run_len_unique(t, class, (n - 1) as nat);
    }
}

/// The longest run is a prefix, lies within the class, and cannot be extended.
pub proof fn lemma_run_len_is_run(s: Seq<char>, class: CharClass)
    ensures
        run_len(s, class) <= s.len(),
        forall|j: int| 0 <= j < run_len(s, class) ==> class.holds(#[trigger] s[j]),
        run_len(s, class) == s.len() || !class.holds(s[run_len(s, class) as int]),
    decreases s.len(),
{
    if s.len() > 0 && class.holds(s[0]) {
        let t = s.skip(1);
        lemma_run_len_is_run(t, class);
        assert forall|j: int| 0 <= j < run_len(s, class) implies class.holds(#[trigger] s[j]) by {
            if j > 0 {
                assert(s[j] == t[j - 1]);
            }
        }
        if run_len(s, class) != s.len() {
            assert(s[run_len(s, class) as int] == t[run_len(t, class) as int]);
        }
    }
}

/// The number that a string of decimal digits denotes.
pub open spec fn decimal_value(digits: Seq<char>) -> nat
    decreases digits.len(),
{
    if digits.len() == 0 {
        0
    } else {
        (decimal_value(digits.drop_last()) * 10 + (digits.last() as int - '0' as int)) as nat
    }
}

/// The operator that `s` starts with, if any. Where two spellings match, the
/// longer one is taken.
pub open spec fn op_at(s: Seq<char>) -> Option<Op> {
    if Op::Return.text().is_prefix_of(s) {
        Some(Op::Return)
    } else if Op::EqEq.text().is_prefix_of(s) {
        Some(Op::EqEq)
    } else if Op::Ne.text().is_prefix_of(s) {
        Some(Op::Ne)
    } else if Op::Le.text().is_prefix_of(s) {
        Some(Op::Le)
    } else if Op::Ge.text().is_prefix_of(s) {
        Some(Op::Ge)
    } else if Op::Plus.text().is_prefix_of(s) {
        Some(Op::Plus)
    } else if Op::Minus.text().is_prefix_of(s) {
        Some(Op::Minus)
    } else if Op::Star.text().is_prefix_of(s) {
        Some(Op::Star)
    } else if Op::Slash.text().is_prefix_of(s) {
        Some(Op::Slash)
    } else if Op::LParen.text().is_prefix_of(s) {
        Some(Op::LParen)
    } else if Op::RParen.text().is_prefix_of(s) {
        Some(Op::RParen)
    } else if Op::Lt.text().is_prefix_of(s) {
        Some(Op::Lt)
    } else if Op::Gt.text().is_prefix_of(s) {
        Some(Op::Gt)
    } else if Op::Assign.text().is_prefix_of(s) {
        Some(Op::Assign)
    } else if Op::Semicolon.text().is_prefix_of(s) {
        Some(Op::Semicolon)
    } else {
        None
    }
}

/// The operator that `s` spells out in full, if any.
pub open spec fn spelled_op(s: Seq<char>) -> Option<Op> {
    match op_at(s) {
        Some(op) if op.text().len() == s.len() => Some(op),
        _ => None,
    }
}

/// The number literal at the start of `s` and its length: the longest run of
/// digits, if it is not empty and its value fits in an `i64`.
pub open spec fn number_at(s: Seq<char>) -> Option<(i64, nat)> {
    let n = run_len(s, CharClass::Digit);
    let value = decimal_value(s.take(n as int));
    if n > 0 && value <= i64::MAX {
        Some((value as i64, n))
    } else {
        None
    }
}

/// The identifier at the start of `s` and its length: the longest run of
/// lower-case letters, if it is not empty.
pub open spec fn ident_at(s: Seq<char>) -> Option<(Seq<char>, nat)> {
    let n = run_len(s, CharClass::Lower);
    if n > 0 {
        Some((s.take(n as int), n))
    } else {
        None
    }
}

/// What a token is, with the name of an identifier as a sequence of
/// characters.
pub enum TokenView {
    Number(i64),
    Operator(Op),
    Ident(Seq<char>),
}

/// What a token holds: exactly one of a number, an operator and a name.
#[derive(Clone, Debug, PartialEq, Eq)]
pub enum TokenKind {
    /// A number literal and its value.
    Number(i64),
    /// An operator, a punctuation mark, or the keyword `return`.
    Operator(Op),
    /// An identifier and its name.
    Ident(String),
}

/// One lexical unit. Two tokens are equal when they are of the same kind and
/// hold the same value; where a token stood in the text is not kept.
#[derive(Clone, Debug, PartialEq, Eq)]
pub struct Token {
    pub kind: TokenKind,
}

impl View for Token {
    type V = TokenView;

    open spec fn view(&self) -> TokenView {
        match self.kind {
            TokenKind::Number(value) => TokenView::Number(value),
            TokenKind::Operator(op) => TokenView::Operator(op),
            TokenKind::Ident(name) => TokenView::Ident(name@),
        }
    }
}

/// The views of a sequence of tokens.
pub open spec fn token_views(tokens: Seq<Token>) -> Seq<TokenView> {
    tokens.map_values(|t: Token| t@)
}

/// Why a source text has no tokens.
#[derive(Clone, Copy, Debug, PartialEq, Eq, Structural)]
pub enum LexError {
    /// A character that starts no token.
    UnexpectedChar(char),
    /// A number literal whose value does not fit in an `i64`.
    NumberTooLarge,
}

/// The token at the start of `s` and its length. The operators are tried
/// first, the keyword `return` among them, then a number, then an identifier.
pub open spec fn token_at(s: Seq<char>) -> Result<(TokenView, nat), LexError>
    recommends
        s.len() > 0,
{
    if let Some(op) = op_at(s) {
        Ok((TokenView::Operator(op), op.text().len()))
    } else if CharClass::Digit.holds(s[0]) {
        match number_at(s) {
            Some((value, n)) => Ok((TokenView::Number(value), n)),
            None => Err(LexError::NumberTooLarge),
        }
    } else if let Some((name, n)) = ident_at(s) {
        Ok((TokenView::Ident(name), n))
    } else {
        Err(LexError::UnexpectedChar(s[0]))
    }
}

/// A token at the start of `s` is not empty and lies within `s`.
pub proof fn lemma_token_at_len(s: Seq<char>)
    requires
        s.len() > 0,
    ensures
        token_at(s) matches Ok((_, n)) ==> 0 < n <= s.len(),
{
    lemma_run_len_is_run(s, CharClass::Digit);
    lemma_run_len_is_run(s, CharClass::Lower);
}

/// The tokens of the source text `s`, or the first error in it. White space
/// separates tokens and is otherwise skipped.
#[verifier::opaque]
pub open spec fn lex(s: Seq<char>) -> Result<Seq<TokenView>, LexError>
    decreases s.len(),
{
    let t = s.skip(run_len(s, CharClass::Space) as int);
    if t.len() == 0 {
        Ok(Seq::empty())
    } else {
        match token_at(t) {
            Err(e) => Err(e),
            Ok((token, n)) => {
                proof {
                    lemma_run_len_is_run(s, CharClass::Space);
                    lemma_token_at_len(t);
                }
                match lex(t.skip(n as int)) {
                    Err(e) => Err(e),
                    Ok(rest) => Ok(seq![token] + rest),
                }
            },
        }
    }
}

/// The outcome of lexing a text whose first tokens are `before` and whose
/// remainder gives `rest`.
pub open spec fn with_tokens_before(
    before: Seq<TokenView>,
    rest: Result<Seq<TokenView>, LexError>,
) -> Result<Seq<TokenView>, LexError> {
    match rest {
        Ok(tokens) => Ok(before + tokens),
        Err(e) => Err(e),
    }
}

/// A sequence is a prefix of another when it is no longer and the two agree
/// on each of its positions.
pub proof fn lemma_prefix_by_chars(t: Seq<char>, s: Seq<char>)
    ensures
        t.is_prefix_of(s) <==> (t.len() <= s.len() && forall|i: int|
            0 <= i < t.len() ==> t[i] == s[i]),
{
    if t.len() <= s.len() {
        let u = s.subrange(0, t.len() as int);
        if t.is_prefix_of(s) {
            assert forall|i: int| 0 <= i < t.len() implies t[i] == s[i] by {
                assert(u[i] == s[i]);
            }
        }
        if forall|i: int| 0 <= i < t.len() ==> t[i] == s[i] {
            assert(t =~= u);
        }
    }
}

/// A text starts with the spelling of an operator when it is long enough and
/// agrees with the spelling on each of its positions.
pub proof fn lemma_op_at_by_chars(s: Seq<char>)
    ensures
        forall|op: Op|
            #[trigger] op.text().is_prefix_of(s) <==> (op.text().len() <= s.len() && forall|
                i: int,
            |
                0 <= i < op.text().len() ==> op.text()[i] == s[i]),
{
    assert forall|op: Op|
        #[trigger] op.text().is_prefix_of(s) <==> (op.text().len() <= s.len() && forall|i: int|
            0 <= i < op.text().len() ==> op.text()[i] == s[i]) by {
        lemma_prefix_by_chars(op.text(), s);
    }
}

/// No tokens before an outcome leave it as it is.
pub proof fn lemma_with_no_tokens_before(rest: Result<Seq<TokenView>, LexError>)
    ensures
        with_tokens_before(Seq::empty(), rest) == rest,
{
    if let Ok(tokens) = rest {
        assert(Seq::<TokenView>::empty() + tokens =~= tokens);
    }
}

/// Putting one token and then others before an outcome is putting all of
/// them before it at once.
pub proof fn lemma_with_tokens_before_twice(
    before: Seq<TokenView>,
    token: TokenView,
    rest: Result<Seq<TokenView>, LexError>,
)
    ensures
        with_tokens_before(before, with_tokens_before(seq![token], rest)) == with_tokens_before(
            before.push(token),
            rest,
        ),
{
    if let Ok(tokens) = rest {
        assert(before + (seq![token] + tokens) =~= before.push(token) + tokens);
    }
}

/// One step of the lexer: skip the white space, stop at the end of the text,
/// and otherwise take one token and go on behind it.
pub proof fn lemma_lex_step(s: Seq<char>)
    ensures
        ({
            let t = s.skip(run_len(s, CharClass::Space) as int);
            lex(s) == if t.len() == 0 {
                Ok(Seq::empty())
            } else {
                match token_at(t) {
                    Err(e) => Err(e),
                    Ok((token, n)) => with_tokens_before(seq![token], lex(t.skip(n as int))),
                }
            }
        }),
{
    reveal_with_fuel(lex, 1);
}

/// How the token at the start of a text follows from the number, the
/// operator and the identifier found there: at most one of the three is
/// found, and where none is, the first character says which error it is.
pub proof fn lemma_token_at_cases(s: Seq<char>)
    requires
        s.len() > 0,
    ensures
        token_at(s) == match number_at(s) {
            Some((value, n)) => Ok((TokenView::Number(value), n)),
            None => match op_at(s) {
                Some(op) => Ok((TokenView::Operator(op), op.text().len())),
                None => match ident_at(s) {
                    Some((name, n)) => Ok((TokenView::Ident(name), n)),
                    None => if CharClass::Digit.holds(s[0]) {
                        Err(LexError::NumberTooLarge)
                    } else {
                        Err(LexError::UnexpectedChar(s[0]))
                    },
                },
            },
        },
{
    lemma_op_at_by_chars(s);
    lemma_run_len_is_run(s, CharClass::Digit);
    lemma_run_len_is_run(s, CharClass::Lower);
    if CharClass::Digit.holds(s[0]) {
        assert forall|op: Op| !#[trigger] op.text().is_prefix_of(s) by {
            assert(op.text()[0] != s[0]);
        }
    }
}

/// Counts the characters at the start of `s` that belong to `class`.
fn leading_run(s: &str, class: CharClass) -> (n: usize)
    ensures
        n == run_len(s@, class),
{
    let len = s.unicode_len();
    let mut i: usize = 0;
    while i < len
        invariant_except_break
            i <= len,
        invariant
            len == s@.len(),
            forall|j: int| 0 <= j < i ==> class.holds(#[trigger] s@[j]),
        ensures
            i <= len,
            i == len || !class.holds(s@[i as int]),
        decreases len - i,
    {
        if !class.contains(s.get_char(i)) {
            break ;
        }
        i += 1;
    }
    proof {
        lemma_run_len_unique(s@, class, i as nat);
    }
    i
}

/// Removes the first `n` characters of `input`.
fn drop_front(input: &mut String, n: usize)
    requires
        n <= old(input)@.len(),
    ensures
        final(input)@ == old(input)@.skip(n as int),
{
    let len = input.as_str().unicode_len();
    let rest = String::from_str(input.as_str().substring_char(n, len));
    *input = rest;
}

/// Finds the operator that `s` starts with.
fn leading_op(s: &str) -> (r: Option<Op>)
    ensures
        r == op_at(s@),
{
    let len = s.unicode_len();
    proof {
        lemma_op_at_by_chars(s@);
    }
    if len == 0 {
        return None;
    }
    let c0 = s.get_char(0);
    if len >= 6 && c0 == 'r' && s.get_char(1) == 'e' && s.get_char(2) == 't' && s.get_char(3)
        == 'u' && s.get_char(4) == 'r' && s.get_char(5) == 'n' {
        return Some(Op::Return);
    }
    if len >= 2 && s.get_char(1) == '=' {
        if c0 == '=' {
            return Some(Op::EqEq);
        }
        if c0 == '!' {
            return Some(Op::Ne);
        }
        if c0 == '<' {
            return Some(Op::Le);
        }
        if c0 == '>' {
            return Some(Op::Ge);
        }
    }
    if c0 == '+' {
        Some(Op::Plus)
    } else if c0 == '-' {
        Some(Op::Minus)
    } else if c0 == '*' {
        Some(Op::Star)
    } else if c0 == '/' {
        Some(Op::Slash)
    } else if c0 == '(' {
        Some(Op::LParen)
    } else if c0 == ')' {
        Some(Op::RParen)
    } else if c0 == '<' {
        Some(Op::Lt)
    } else if c0 == '>' {
        Some(Op::Gt)
    } else if c0 == '=' {
        Some(Op::Assign)
    } else if c0 == ';' {
        Some(Op::Semicolon)
    } else {
        None
    }
}

/// The value of a string of digits is at least that of each of its prefixes.
pub proof fn lemma_decimal_value_grows(digits: Seq<char>, i: int)
    requires
        0 <= i <= digits.len(),
        forall|j: int| 0 <= j < digits.len() ==> CharClass::Digit.holds(#[trigger] digits[j]),
    ensures
        decimal_value(digits.take(i)) <= decimal_value(digits),
    decreases digits.len() - i,
{
    if i == digits.len() {
        assert(digits.take(i) =~= digits);
    } else {
        let shorter = digits.drop_last();
        assert(shorter.take(i) =~= digits.take(i));
        lemma_decimal_value_grows(shorter, i);
    }
}

/// Computes the value of the first `n` characters of `s`, which are digits,
/// unless it is too large for an `i64`.
fn leading_value(s: &str, n: usize) -> (r: Option<i64>)
    requires
        n <= s@.len(),
        forall|j: int| 0 <= j < n ==> CharClass::Digit.holds(#[trigger] s@[j]),
    ensures
        match r {
            Some(value) => value == decimal_value(s@.take(n as int)),
            None => decimal_value(s@.take(n as int)) > i64::MAX,
        },
{
    let ghost digits = s@.take(n as int);
    let mut value: i64 = 0;
    let mut i: usize = 0;
    while i < n
        invariant
            i <= n <= s@.len(),
            digits == s@.take(n as int),
            forall|j: int| 0 <= j < n ==> CharClass::Digit.holds(#[trigger] s@[j]),
            value == decimal_value(digits.take(i as int)),
        decreases n - i,
    {
        let c = s.get_char(i);
        let digit: i64 = (c as u32 - '0' as u32) as i64;
        proof {
            let longer = digits.take(i + 1);
            assert(longer.drop_last() =~= digits.take(i as int));
            assert(longer.last() == c);
            lemma_decimal_value_grows(digits, i + 1);
        }
        let next = match value.checked_mul(10) {
            Some(tens) => tens.checked_add(digit),
            None => None,
        };
        match next {
            Some(v) => {
                value = v;
            },
            None => {
                return None;
            },
        }
        i += 1;
    }
    assert(digits.take(n as int) =~= digits);
    Some(value)
}

impl Token {
    /// The token of the operator that `op` spells.
    pub fn operator(op: String) -> (token: Token)
        requires
            spelled_op(op@) is Some,
        ensures
            token@ == TokenView::Operator(spelled_op(op@).unwrap()),
    {
        let text = op.as_str();
        let found = leading_op(text);
        proof {
            lemma_op_at_by_chars(text@);
        }
        Token { kind: TokenKind::Operator(found.unwrap()) }
    }

    /// The token of the number literal with value `num`.
    pub fn number(num: i64) -> (token: Token)
        ensures
            token@ == TokenView::Number(num),
    {
        Token { kind: TokenKind::Number(num) }
    }

    /// The token of the identifier with name `ident`.
    pub fn ident(ident: String) -> (token: Token)
        ensures
            token@ == TokenView::Ident(ident@),
    {
        Token { kind: TokenKind::Ident(ident) }
    }

    /// Splits the source text `input` into its tokens, or reports the first
    /// error in it.
    pub fn parse(input: String) -> (r: Result<Vec<Token>, LexError>)
        ensures
            match lex(input@) {
                Ok(tokens) => r matches Ok(found) && token_views(found@) == tokens,
                Err(e) => r == Err::<Vec<Token>, LexError>(e),
            },
    {
        let mut tokens: Vec<Token> = Vec::new();
        let mut rest = input;
        assert(Seq::<TokenView>::empty() =~= token_views(tokens@));
        proof {
            lemma_with_no_tokens_before(lex(rest@));
        }
        loop
            invariant
                lex(input@) == with_tokens_before(token_views(tokens@), lex(rest@)),
            decreases rest@.len(),
        {
            let ghost spaced = rest@;
            let ghost found = token_views(tokens@);
            consume_whitespace(&mut rest);
            proof {
                lemma_lex_step(spaced);
                lemma_run_len_is_run(spaced, CharClass::Space);
            }
            if rest.as_str().is_empty() {
                assert(found + Seq::<TokenView>::empty() =~= found);
                return Ok(tokens);
            }
            proof {
                lemma_token_at_cases(rest@);
                lemma_token_at_len(rest@);
            }
            let first = rest.as_str().get_char(0);
            let token = match consume_number(&mut rest) {
                Some(token) => token,
                None => match consume_operator(&mut rest) {
                    Some(token) => token,
                    None => match consume_ident(&mut rest) {
                        Some(token) => token,
                        None => {
                            if CharClass::Digit.contains(first) {
                                return Err(LexError::NumberTooLarge);
                            } else {
                                return Err(LexError::UnexpectedChar(first));
                            }
                        },
                    },
                },
            };
            tokens.push(token);
            proof {
                assert(token_views(tokens@) =~= found.push(token@));
                lemma_with_tokens_before_twice(found, token@, lex(rest@));
            }
        }
    }
}

/// Removes the white space at the start of `input`.
pub fn consume_whitespace(input: &mut String)
    ensures
        final(input)@ == old(input)@.skip(run_len(old(input)@, CharClass::Space) as int),
{
    let n = leading_run(input.as_str(), CharClass::Space);
    proof {
        lemma_run_len_is_run(input@, CharClass::Space);
    }
    drop_front(input, n);
}

/// Takes the number literal at the start of `input`, if there is one.
/// Otherwise `input` stays as it is.
pub fn consume_number(input: &mut String) -> (r: Option<Token>)
    ensures
        match number_at(old(input)@) {
            Some((value, n)) => r matches Some(token) && token@ == TokenView::Number(value)
                && final(input)@ == old(input)@.skip(n as int),
            None => r is None && *final(input) == *old(input),
        },
{
    let n = leading_run(input.as_str(), CharClass::Digit);
    proof {
        lemma_run_len_is_run(input@, CharClass::Digit);
    }
    if n == 0 {
        return None;
    }
    match leading_value(input.as_str(), n) {
        Some(value) => {
            drop_front(input, n);
            Some(Token::number(value))
        },
        None => None,
    }
}

/// Takes the operator at the start of `input`, if there is one. Otherwise
/// `input` stays as it is.
pub fn consume_operator(input: &mut String) -> (r: Option<Token>)
    ensures
        match op_at(old(input)@) {
            Some(op) => r matches Some(token) && token@ == TokenView::Operator(op)
                && final(input)@ == old(input)@.skip(op.text().len() as int),
            None => r is None && *final(input) == *old(input),
        },
{
    match leading_op(input.as_str()) {
        Some(op) => {
            let n: usize = match op {
                Op::Return => 6,
                Op::Le | Op::Ge | Op::EqEq | Op::Ne => 2,
                _ => 1,
            };
            drop_front(input, n);
            Some(Token { kind: TokenKind::Operator(op) })
        },
        None => None,
    }
}

/// Takes the identifier at the start of `input`, if there is one. Otherwise
/// `input` stays as it is.
pub fn consume_ident(input: &mut String) -> (r: Option<Token>)
    ensures
        match ident_at(old(input)@) {
            Some((name, n)) => r matches Some(token) && token@ == TokenView::Ident(name)
                && final(input)@ == old(input)@.skip(n as int),
            None => r is None && *final(input) == *old(input),
        },
{
    let n = leading_run(input.as_str(), CharClass::Lower);
    proof {
        lemma_run_len_is_run(input@, CharClass::Lower);
    }
    if n == 0 {
        return None;
    }
    let name = String::from_str(input.as_str().substring_char(0, n));
    drop_front(input, n);
    Some(Token::ident(name))
}

/// Whether all characters of `s` are digits.
pub open spec fn all_digits(s: Seq<char>) -> bool {
    forall|i: int| 0 <= i < s.len() ==> CharClass::Digit.holds(#[trigger] s[i])
}

/// A number literal is one token, whatever follows it, unless that goes on
/// with a digit.
pub proof fn lemma_lex_number(digits: Seq<char>, rest: Seq<char>)
    requires
        digits.len() > 0,
        all_digits(digits),
        decimal_value(digits) <= i64::MAX,
        rest.len() == 0 || !CharClass::Digit.holds(rest[0]),
    ensures
        lex(digits + rest) == with_tokens_before(
            seq![TokenView::Number(decimal_value(digits) as i64)],
            lex(rest),
        ),
{
    let s = digits + rest;
    let n = digits.len();
    assert(s[0] == digits[0]);
    assert forall|j: int| 0 <= j < n implies CharClass::Digit.holds(#[trigger] s[j]) by {
        assert(s[j] == digits[j]);
    }
    if n < s.len() {
        assert(s[n as int] == rest[0]);
    }
    lemma_run_len_unique(s, CharClass::Digit, n);
    lemma_run_len_unique(s, CharClass::Space, 0);
    assert(s.skip(0) =~= s);
    assert(s.take(n as int) =~= digits);
    assert(s.skip(n as int) =~= rest);
    lemma_token_at_cases(s);
    lemma_lex_step(s);
}

/// A text that starts with the spelling of an operator starts with that
/// operator, unless what follows makes a longer operator of it.
pub proof fn lemma_op_at_own_text(op: Op, rest: Seq<char>)
    requires
        op == Op::Lt || op == Op::Gt || op == Op::Assign ==> rest.len() == 0 || rest[0] != '=',
    ensures
        op_at(op.text() + rest) == Some(op),
{
    let s = op.text() + rest;
    let n = op.text().len();
    assert forall|j: int| 0 <= j < n implies s[j] == op.text()[j] by {}
    if n < s.len() {
        assert(s[n as int] == rest[0]);
    }
    lemma_prefix_by_chars(op.text(), s);
    lemma_prefix_by_chars(Op::Return.text(), s);
    lemma_prefix_by_chars(Op::EqEq.text(), s);
    lemma_prefix_by_chars(Op::Ne.text(), s);
    lemma_prefix_by_chars(Op::Le.text(), s);
    lemma_prefix_by_chars(Op::Ge.text(), s);
    assert(Op::Return.text()[0] == 'r');
    assert(Op::EqEq.text()[0] == '=' && Op::EqEq.text()[1] == '=');
    assert(Op::Ne.text()[0] == '!' && Op::Ne.text()[1] == '=');
    assert(Op::Le.text()[0] == '<' && Op::Le.text()[1] == '=');
    assert(Op::Ge.text()[0] == '>' && Op::Ge.text()[1] == '=');
    if n == 1 {
        lemma_prefix_by_chars(Op::Plus.text(), s);
        lemma_prefix_by_chars(Op::Minus.text(), s);
        lemma_prefix_by_chars(Op::Star.text(), s);
        lemma_prefix_by_chars(Op::Slash.text(), s);
        lemma_prefix_by_chars(Op::LParen.text(), s);
        lemma_prefix_by_chars(Op::RParen.text(), s);
        lemma_prefix_by_chars(Op::Lt.text(), s);
        lemma_prefix_by_chars(Op::Gt.text(), s);
        lemma_prefix_by_chars(Op::Assign.text(), s);
        lemma_prefix_by_chars(Op::Semicolon.text(), s);
        assert(Op::Plus.text()[0] == '+');
        assert(Op::Minus.text()[0] == '-');
        assert(Op::Star.text()[0] == '*');
        assert(Op::Slash.text()[0] == '/');
        assert(Op::LParen.text()[0] == '(');
        assert(Op::RParen.text()[0] == ')');
        assert(Op::Lt.text()[0] == '<');
        assert(Op::Gt.text()[0] == '>');
        assert(Op::Assign.text()[0] == '=');
        assert(Op::Semicolon.text()[0] == ';');
    }
}

/// An operator is one token, whatever follows it, unless that makes a longer
/// operator of it.
pub proof fn lemma_lex_operator(op: Op, rest: Seq<char>)
    requires
        op == Op::Lt || op == Op::Gt || op == Op::Assign ==> rest.len() == 0 || rest[0] != '=',
    ensures
        lex(op.text() + rest) == with_tokens_before(seq![TokenView::Operator(op)], lex(rest)),
{
    let s = op.text() + rest;
    let n = op.text().len();
    lemma_op_at_own_text(op, rest);
    assert(s[0] == op.text()[0]);
    lemma_run_len_unique(s, CharClass::Space, 0);
    assert(s.skip(0) =~= s);
    assert(s.skip(n as int) =~= rest);
    lemma_lex_step(s);
}

/// The empty text has no tokens.
pub proof fn lemma_lex_empty()
    ensures
        lex(Seq::empty()) == Ok::<Seq<TokenView>, LexError>(Seq::empty()),
{
    reveal_with_fuel(lex, 1);
}

impl TokenView {
    /// What holds of every token that the lexer yields: a number is not
    /// negative, and a name is not empty and made of lower-case letters.
    pub open spec fn well_formed(self) -> bool {
        match self {
            TokenView::Number(value) => value >= 0,
            TokenView::Operator(_) => true,
            TokenView::Ident(name) => is_name(name),
        }
    }
}

/// The lexer yields well-formed tokens, and no more tokens than the text has
/// characters.
pub proof fn lemma_lex_tokens(s: Seq<char>)
    ensures
        lex(s) matches Ok(tokens) ==> {
            &&& tokens.len() <= s.len()
            &&& forall|i: int| 0 <= i < tokens.len() ==> (#[trigger] tokens[i]).well_formed()
        },
    decreases s.len(),
{
    lemma_lex_step(s);
    lemma_run_len_is_run(s, CharClass::Space);
    let t = s.skip(run_len(s, CharClass::Space) as int);
    if t.len() > 0 {
        lemma_token_at_len(t);
        lemma_run_len_is_run(t, CharClass::Lower);
        if let Ok((token, n)) = token_at(t) {
            let rest = t.skip(n as int);
            lemma_lex_tokens(rest);
            assert(token.well_formed());
            if let Ok(others) = lex(rest) {
                let tokens = seq![token] + others;
                assert forall|i: int| 0 <= i < tokens.len() implies (
                #[trigger] tokens[i]).well_formed() by {
                    if i > 0 {
                        assert(tokens[i] == others[i - 1]);
                    }
                }
            }
        }
    }
}

/// A text spells an operator out in full when it is the spelling of the
/// operator, and only then.
pub proof fn lemma_spelled_op(s: Seq<char>, op: Op)
    ensures
        spelled_op(s) == Some(op) <==> s == op.text(),
{
    if s == op.text() {
        lemma_op_at_own_text(op, Seq::empty());
        assert(op.text() + Seq::<char>::empty() =~= op.text());
    }
    if spelled_op(s) == Some(op) {
        assert(op.text().is_prefix_of(s));
        assert(s.subrange(0, s.len() as int) =~= s);
    }
}

/// Whether `s` is a name: a string of lower-case letters, not empty.
pub open spec fn is_name(s: Seq<char>) -> bool {
    s.len() > 0 && forall|i: int| 0 <= i < s.len() ==> CharClass::Lower.holds(#[trigger] s[i])
}

/// A name is one token, whatever follows it, unless that goes on with a
/// letter or the text starts with the keyword `return`.
pub proof fn lemma_lex_ident(name: Seq<char>, rest: Seq<char>)
    requires
        is_name(name),
        rest.len() == 0 || !CharClass::Lower.holds(rest[0]),
        !Op::Return.text().is_prefix_of(name + rest),
    ensures
        lex(name + rest) == with_tokens_before(seq![TokenView::Ident(name)], lex(rest)),
{
    let s = name + rest;
    let n = name.len();
    assert(s[0] == name[0]);
    assert forall|j: int| 0 <= j < n implies CharClass::Lower.holds(#[trigger] s[j]) by {
        assert(s[j] == name[j]);
    }
    if n < s.len() {
        assert(s[n as int] == rest[0]);
    }
    lemma_run_len_unique(s, CharClass::Lower, n);
    lemma_run_len_unique(s, CharClass::Digit, 0);
    lemma_run_len_unique(s, CharClass::Space, 0);
    assert(s.skip(0) =~= s);
    assert(s.take(n as int) =~= name);
    assert(s.skip(n as int) =~= rest);
    assert(op_at(s) is None) by {
        lemma_op_at_by_chars(s);
        assert forall|op: Op| op != Op::Return implies !#[trigger] op.text().is_prefix_of(s) by {
            assert(op.text()[0] != s[0]);
        }
    }
    lemma_token_at_cases(s);
    lemma_lex_step(s);
}

} // verus!
