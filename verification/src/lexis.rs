//! The lexical rules: what the characters of a program text spell.
//!
//! Everything here is specification. [`next_token`] says which token starts
//! at or after a position and where it ends, and [`token_stream`] gathers the
//! tokens of a whole text. The cursor in [`crate::lexer`] is proved against
//! these.

use crate::binary64::real_of_text;
use crate::error::Error;
use crate::token::{Keyword, TokenView};
use vstd::prelude::*;

verus! {

/// The letters are the 26 of the Latin alphabet, in either case.
pub open spec fn is_letter(c: char) -> bool {
    ('a' <= c && c <= 'z') || ('A' <= c && c <= 'Z')
}

/// The digits are the ten decimal ones.
pub open spec fn is_digit(c: char) -> bool {
    '0' <= c && c <= '9'
}

/// Whitespace is the space and the newline, nothing else.
pub open spec fn is_blank(c: char) -> bool {
    c == ' ' || c == '\n'
}

/// The value of a decimal digit.
pub open spec fn digit_value(c: char) -> nat {
    (c as int - '0' as int) as nat
}

/// The number that a sequence of decimal digits spells; 0 for the empty one.
pub open spec fn decimal_value(digits: Seq<char>) -> nat
    decreases digits.len(),
{
    if digits.len() == 0 {
        0
    } else {
        decimal_value(digits.drop_last()) * 10 + digit_value(digits.last())
    }
}

/// Where the run of digits that starts at `i` ends.
pub open spec fn digits_end(text: Seq<char>, i: int) -> int
    decreases text.len() - i,
{
    if 0 <= i < text.len() && is_digit(text[i]) {
        digits_end(text, i + 1)
    } else {
        i
    }
}

/// Where the run of letters and digits that starts at `i` ends.
pub open spec fn word_end(text: Seq<char>, i: int) -> int
    decreases text.len() - i,
{
    if 0 <= i < text.len() && (is_letter(text[i]) || is_digit(text[i])) {
        word_end(text, i + 1)
    } else {
        i
    }
}

/// The position of the first `}` at or after `i`, or the end of the text.
pub open spec fn comment_close(text: Seq<char>, i: int) -> int
    decreases text.len() - i,
{
    if 0 <= i < text.len() && text[i] != '}' {
        comment_close(text, i + 1)
    } else {
        i
    }
}

pub proof fn lemma_comment_close_bounds(text: Seq<char>, i: int)
    ensures
        i <= comment_close(text, i),
        0 <= i <= text.len() ==> comment_close(text, i) <= text.len(),
    decreases text.len() - i,
{
    if 0 <= i < text.len() && text[i] != '}' {
        lemma_comment_close_bounds(text, i + 1);
    }
}

/// The position of the first character at or after `i` that is neither
/// whitespace nor inside a `{ ... }` comment, or the end of the text. A
/// comment that is never closed is an error, reported at its `{`.
pub open spec fn significant(text: Seq<char>, i: int) -> Result<int, Error>
    decreases text.len() - i,
{
    if i < 0 || i >= text.len() {
        Ok(i)
    } else if is_blank(text[i]) {
        significant(text, i + 1)
    } else if text[i] == '{' {
        let close = comment_close(text, i);
        if close >= text.len() {
            Err(Error::UnterminatedComment { position: i as usize })
        } else {
            proof {
                lemma_comment_close_bounds(text, i);
            }
            significant(text, close + 1)
        }
    } else {
        Ok(i)
    }
}

/// The reserved word that a run of letters and digits spells, if any. The
/// match is exact and case-sensitive.
pub open spec fn keyword_of(word: Seq<char>) -> Option<Keyword> {
    if word == Keyword::Program.letters() {
        Some(Keyword::Program)
    } else if word == Keyword::Var.letters() {
        Some(Keyword::Var)
    } else if word == Keyword::Begin.letters() {
        Some(Keyword::Begin)
    } else if word == Keyword::End.letters() {
        Some(Keyword::End)
    } else if word == Keyword::Integer.letters() {
        Some(Keyword::Integer)
    } else if word == Keyword::Real.letters() {
        Some(Keyword::Real)
    } else if word == Keyword::Div.letters() {
        Some(Keyword::Div)
    } else {
        None
    }
}

/// The numeral that starts with the digit at `i`: a run of digits, then
/// optionally one decimal point and a further run of digits. Without a point
/// it is an integer literal, which must fit in 64 bits; with one it is a real
/// literal. A second point directly after the numeral is an error.
pub open spec fn numeral(text: Seq<char>, i: int) -> Result<(TokenView, int), Error> {
    let whole_end = digits_end(text, i);
    if whole_end < text.len() && text[whole_end] == '.' {
        let end = digits_end(text, whole_end + 1);
        if end < text.len() && text[end] == '.' {
            Err(Error::MultipleDecimalPoints { position: end as usize })
        } else {
            match real_of_text(text.subrange(i, end)) {
                Some(bits) => Ok((TokenView::REAL_CONST(bits), end)),
                None => Err(Error::MalformedNumeral { position: i as usize }),
            }
        }
    } else {
        let value = decimal_value(text.subrange(i, whole_end));
        if value <= u64::MAX {
            Ok((TokenView::INTEGER_CONST(value as u64), whole_end))
        } else {
            Err(Error::NumeralOutOfRange { position: i as usize })
        }
    }
}

/// The token that starts exactly at `i`, with the position just after it. At
/// the end of the text that is the end-of-input token, which consumes nothing.
pub open spec fn token_at(text: Seq<char>, i: int) -> Result<(TokenView, int), Error> {
    if i < 0 || i >= text.len() {
        Ok((TokenView::EOF, i))
    } else {
        let c = text[i];
        if is_letter(c) {
            let end = word_end(text, i);
            let word = text.subrange(i, end);
            match keyword_of(word) {
                Some(keyword) => Ok((TokenView::KEYWORD(keyword), end)),
                None => Ok((TokenView::ID(word), end)),
            }
        } else if is_digit(c) {
            numeral(text, i)
        } else if c == ':' {
            if i + 1 < text.len() && text[i + 1] == '=' {
                Ok((TokenView::ASSIGN, i + 2))
            } else {
                Ok((TokenView::COLON, i + 1))
            }
        } else if c == ';' {
            Ok((TokenView::SEMI, i + 1))
        } else if c == ',' {
            Ok((TokenView::COMMA, i + 1))
        } else if c == '.' {
            Ok((TokenView::DOT, i + 1))
        } else if c == '+' || c == '-' {
            Ok((TokenView::OP1(c), i + 1))
        } else if c == '*' || c == '/' {
            Ok((TokenView::OP2(c), i + 1))
        } else if c == '(' {
            Ok((TokenView::LP, i + 1))
        } else if c == ')' {
            Ok((TokenView::RP, i + 1))
        } else {
            Err(Error::UnrecognizedCharacter { character: c, position: i as usize })
        }
    }
}

/// The next token at or after `i`, whitespace and comments skipped, with the
/// position just after it.
pub open spec fn next_token(text: Seq<char>, i: int) -> Result<(TokenView, int), Error> {
    match significant(text, i) {
        Ok(start) => token_at(text, start),
        Err(e) => Err(e),
    }
}

/// The tokens of a text from a position on, as the parser will meet them:
/// every token before the end of the input, in order, and the lexical error
/// that cuts the sequence short, if there is one. The end-of-input token is
/// not among `tokens`; it is what follows them when `error` is `None`.
#[verifier::ext_equal]
pub struct TokenStream {
    pub tokens: Seq<TokenView>,
    pub error: Option<Error>,
}

impl TokenStream {
    /// The stream of an exhausted input.
    pub open spec fn empty() -> TokenStream {
        TokenStream { tokens: Seq::empty(), error: None }
    }

    /// A stream with one more token in front.
    pub open spec fn cons(token: TokenView, rest: TokenStream) -> TokenStream {
        TokenStream { tokens: seq![token] + rest.tokens, error: rest.error }
    }

    /// The token under the parser's eye: the first one, or end-of-input.
    pub open spec fn head(self) -> TokenView {
        if self.tokens.len() > 0 {
            self.tokens[0]
        } else {
            TokenView::EOF
        }
    }

    /// The stream without its first `n` tokens.
    pub open spec fn skip(self, n: nat) -> TokenStream {
        TokenStream {
            tokens: if n <= self.tokens.len() {
                self.tokens.skip(n as int)
            } else {
                Seq::empty()
            },
            error: self.error,
        }
    }

    /// Moving on to the following token. This is where a lexical error
    /// surfaces: when the token just consumed was the last one before it.
    pub open spec fn next(self) -> Result<TokenStream, Error> {
        let rest = self.skip(1);
        if rest.tokens.len() == 0 && rest.error is Some {
            Err(rest.error->0)
        } else {
            Ok(rest)
        }
    }
}

/// Skipping in two steps is skipping once.
pub proof fn lemma_skip_skip(s: TokenStream, a: nat, b: nat)
    ensures
        s.skip(a).skip(b) == s.skip(a + b),
{
    assert(s.skip(a).skip(b) =~= s.skip(a + b));
}

/// Skipping nothing changes nothing.
pub proof fn lemma_skip_nothing(s: TokenStream)
    ensures
        s.skip(0) == s,
{
    assert(s.skip(0) =~= s);
}

/// A token that is not end-of-input ends after the position it was asked
/// for, and no token ends beyond the text.
pub proof fn lemma_next_token_advances(text: Seq<char>, i: int)
    requires
        0 <= i <= text.len(),
    ensures
        match next_token(text, i) {
            Ok((token, end)) => i <= end <= text.len() && (!(token is EOF) ==> i < end) && (token
                is EOF ==> end == text.len()),
            Err(_) => true,
        },
{
    lemma_significant_bounds(text, i);
    match significant(text, i) {
        Ok(start) => {
            lemma_digits_end_bounds(text, start);
            lemma_word_end_bounds(text, start);
            if start < text.len() {
                let whole_end = digits_end(text, start);
                lemma_digits_end_bounds(text, whole_end + 1);
            }
        },
        Err(_) => {},
    }
}

pub proof fn lemma_significant_bounds(text: Seq<char>, i: int)
    requires
        0 <= i <= text.len(),
    ensures
        match significant(text, i) {
            Ok(start) => i <= start <= text.len() && (start < text.len() ==> !is_blank(text[start])
                && text[start] != '{'),
            Err(_) => true,
        },
    decreases text.len() - i,
{
    if i < text.len() {
        if is_blank(text[i]) {
            lemma_significant_bounds(text, i + 1);
        } else if text[i] == '{' {
            lemma_comment_close_bounds(text, i);
            let close = comment_close(text, i);
            if close < text.len() {
                lemma_significant_bounds(text, close + 1);
            }
        }
    }
}

pub proof fn lemma_digits_end_bounds(text: Seq<char>, i: int)
    ensures
        i <= digits_end(text, i),
        0 <= i <= text.len() ==> digits_end(text, i) <= text.len(),
        0 <= i < text.len() && is_digit(text[i]) ==> i < digits_end(text, i),
    decreases text.len() - i,
{
    if 0 <= i < text.len() && is_digit(text[i]) {
        lemma_digits_end_bounds(text, i + 1);
    }
}

pub proof fn lemma_word_end_bounds(text: Seq<char>, i: int)
    ensures
        i <= word_end(text, i),
        0 <= i <= text.len() ==> word_end(text, i) <= text.len(),
        0 <= i < text.len() && is_letter(text[i]) ==> i < word_end(text, i),
    decreases text.len() - i,
{
    if 0 <= i < text.len() && (is_letter(text[i]) || is_digit(text[i])) {
        lemma_word_end_bounds(text, i + 1);
    }
}

/// The token stream of a text from position `i` on.
pub open spec fn token_stream(text: Seq<char>, i: int) -> TokenStream
    decreases text.len() - i,
{
    if i < 0 || i > text.len() {
        TokenStream::empty()
    } else {
        match next_token(text, i) {
            Err(e) => TokenStream { tokens: Seq::empty(), error: Some(e) },
            Ok((token, end)) => {
                if token is EOF {
                    TokenStream::empty()
                } else {
                    proof {
                        lemma_next_token_advances(text, i);
                    }
                    TokenStream::cons(token, token_stream(text, end))
                }
            },
        }
    }
}

/// Whether a token is one that the lexer can emit: an operator token carries
/// one of its two characters, and the parser's own markers do not occur.
pub open spec fn lexical(token: TokenView) -> bool {
    match token {
        TokenView::OP1(c) => c == '+' || c == '-',
        TokenView::OP2(c) => c == '*' || c == '/',
        TokenView::UNARY(_) => false,
        TokenView::ASTNode(_) => false,
        TokenView::EOF => false,
        _ => true,
    }
}

impl TokenStream {
    /// Whether every token of the stream is one that the lexer can emit.
    pub open spec fn is_lexical(self) -> bool {
        forall|i: int| 0 <= i < self.tokens.len() ==> lexical(#[trigger] self.tokens[i])
    }
}

/// The tokens of a text are tokens that the lexer can emit.
pub proof fn lemma_token_stream_lexical(text: Seq<char>, i: int)
    ensures
        token_stream(text, i).is_lexical(),
    decreases text.len() - i,
{
    if 0 <= i <= text.len() {
        match next_token(text, i) {
            Err(_) => {},
            Ok((token, end)) => {
                if !(token is EOF) {
                    lemma_next_token_advances(text, i);
                    lemma_token_stream_lexical(text, end);
                    let rest = token_stream(text, end);
                    let all = token_stream(text, i);
                    assert(all == TokenStream::cons(token, rest));
                    assert(lexical(token));
                    assert forall|k: int| 0 <= k < all.tokens.len() implies lexical(
                        #[trigger] all.tokens[k],
                    ) by {
                        if k > 0 {
                            assert(all.tokens[k] == rest.tokens[k - 1]);
                        }
                    }
                }
            },
        }
    }
}

/// What is left of a lexical stream is lexical.
pub proof fn lemma_skip_lexical(s: TokenStream, n: nat)
    requires
        s.is_lexical(),
    ensures
        s.skip(n).is_lexical(),
        s.skip(n).tokens.len() <= s.tokens.len(),
{
    let rest = s.skip(n);
    assert forall|i: int| 0 <= i < rest.tokens.len() implies lexical(#[trigger] rest.tokens[i]) by {
        assert(rest.tokens[i] == s.tokens[i + n]);
    }
}

/// The head of a lexical stream is a token that the lexer can emit, or the
/// end of the input.
pub proof fn lemma_head_lexical(s: TokenStream)
    requires
        s.is_lexical(),
    ensures
        lexical(s.head()) || s.head() is EOF,
{
    if s.tokens.len() > 0 {
        assert(lexical(s.tokens[0]));
    }
}

} // verus!
