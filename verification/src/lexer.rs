//! The lexer: a cursor over the characters of a program text that hands out
//! one token at a time.

use crate::binary64::parse_real;
use crate::error::Error;
use crate::lexis::{
    comment_close, decimal_value, digit_value, digits_end, is_digit, is_letter, keyword_of,
    lemma_comment_close_bounds, lemma_digits_end_bounds, lemma_next_token_advances,
    lemma_word_end_bounds, lexical, next_token, numeral, significant, token_stream, word_end,
    TokenStream,
};
use crate::text::{chars_of, same_chars, slice_of, string_from_chars};
use crate::token::{Keyword, Token, TokenView};
use vstd::prelude::*;

verus! {

/// The lexer and the parser built on it: the program text, a cursor into it,
/// and the token that was read last, which is the parser's lookahead.
pub struct Interpreter {
    pub text: Vec<char>,
    pub current_token: Token,
    pub idx: usize,
}

fn letter(c: char) -> (r: bool)
    ensures
        r == is_letter(c),
{
    (c >= 'a' && c <= 'z') || (c >= 'A' && c <= 'Z')
}

fn digit(c: char) -> (r: bool)
    ensures
        r == is_digit(c),
{
    c >= '0' && c <= '9'
}

/// Reads the run of decimal digits that starts at `*idx` and moves `*idx`
/// past it. Returns the number that the digits spell, or `None` where that
/// number does not fit in 64 bits; an empty run spells 0.
pub fn get_digits(v_slice: &Vec<char>, idx: &mut usize) -> (r: Option<u64>)
    requires
        *old(idx) <= v_slice.len(),
    ensures
        *final(idx) == digits_end(v_slice@, *old(idx) as int),
        r == ({
            let value = decimal_value(v_slice@.subrange(*old(idx) as int, *final(idx) as int));
            if value <= u64::MAX {
                Some(value as u64)
            } else {
                None
            }
        }),
{
    let start: usize = *idx;
    let mut i: usize = start;
    let mut value: u64 = 0;
    let mut fits: bool = true;
    assert(v_slice@.subrange(start as int, start as int) =~= Seq::<char>::empty());
    while i < v_slice.len() && digit(v_slice[i])
        invariant
            start <= i <= v_slice.len(),
            digits_end(v_slice@, start as int) == digits_end(v_slice@, i as int),
            fits ==> value == decimal_value(v_slice@.subrange(start as int, i as int)),
            !fits ==> decimal_value(v_slice@.subrange(start as int, i as int)) > u64::MAX,
        decreases v_slice.len() - i,
    {
        let d: u64 = (v_slice[i] as u64) - ('0' as u64);
        proof {
            let before = v_slice@.subrange(start as int, i as int);
            let after = v_slice@.subrange(start as int, i + 1);
            assert(after.drop_last() =~= before);
            assert(after.last() == v_slice@[i as int]);
            assert(d == digit_value(v_slice@[i as int]));
            assert(decimal_value(after) == decimal_value(before) * 10 + d);
        }
        if fits {
            match value.checked_mul(10) {
                Some(tenfold) => match tenfold.checked_add(d) {
                    Some(sum) => {
                        value = sum;
                    },
                    None => {
                        fits = false;
                    },
                },
                None => {
                    fits = false;
                },
            }
        }
        i += 1;
    }
    *idx = i;
    if fits {
        Some(value)
    } else {
        None
    }
}

impl Keyword {
    /// The word as it is written in a program.
    pub fn text(&self) -> (r: &'static str)
        ensures
            r@ == self.letters(),
    {
        match self {
            Keyword::Program => {
                proof {
                    reveal_strlit("PROGRAM");
                }
                assert("PROGRAM"@ =~= Keyword::Program.letters());
                "PROGRAM"
            },
            Keyword::Var => {
                proof {
                    reveal_strlit("VAR");
                }
                assert("VAR"@ =~= Keyword::Var.letters());
                "VAR"
            },
            Keyword::Begin => {
                proof {
                    reveal_strlit("BEGIN");
                }
                assert("BEGIN"@ =~= Keyword::Begin.letters());
                "BEGIN"
            },
            Keyword::End => {
                proof {
                    reveal_strlit("END");
                }
                assert("END"@ =~= Keyword::End.letters());
                "END"
            },
            Keyword::Integer => {
                proof {
                    reveal_strlit("INTEGER");
                }
                assert("INTEGER"@ =~= Keyword::Integer.letters());
                "INTEGER"
            },
            Keyword::Real => {
                proof {
                    reveal_strlit("REAL");
                }
                assert("REAL"@ =~= Keyword::Real.letters());
                "REAL"
            },
            Keyword::Div => {
                proof {
                    reveal_strlit("DIV");
                }
                assert("DIV"@ =~= Keyword::Div.letters());
                "DIV"
            },
        }
    }

    /// Whether `word` spells this keyword, letter for letter.
    pub fn spells(&self, word: &Vec<char>) -> (r: bool)
        ensures
            r == (word@ == self.letters()),
    {
        let letters = chars_of(self.text());
        same_chars(word, &letters)
    }

    /// The keyword that `word` spells, if it spells one.
    pub fn lookup(word: &Vec<char>) -> (r: Option<Keyword>)
        ensures
            r == keyword_of(word@),
    {
        if Keyword::Program.spells(word) {
            Some(Keyword::Program)
        } else if Keyword::Var.spells(word) {
            Some(Keyword::Var)
        } else if Keyword::Begin.spells(word) {
            Some(Keyword::Begin)
        } else if Keyword::End.spells(word) {
            Some(Keyword::End)
        } else if Keyword::Integer.spells(word) {
            Some(Keyword::Integer)
        } else if Keyword::Real.spells(word) {
            Some(Keyword::Real)
        } else if Keyword::Div.spells(word) {
            Some(Keyword::Div)
        } else {
            None
        }
    }
}

impl Interpreter {
    /// The cursor lies within the text, the text's first token can be read,
    /// the lookahead is a token that the lexer can emit, and a lookahead of
    /// end-of-input means that the input is exhausted.
    pub open spec fn wf(&self) -> bool {
        &&& self.idx <= self.text.len()
        &&& next_token(self.text@, 0) is Ok
        &&& lexical(self.current_token@) || self.current_token@ is EOF
        &&& self.current_token@ is EOF ==> next_token(self.text@, self.idx as int) == Ok::<
            (TokenView, int),
            Error,
        >((TokenView::EOF, self.text.len() as int))
    }

    /// What is left to parse: the lookahead token and the tokens of the text
    /// behind the cursor.
    #[verifier::opaque]
    pub open spec fn stream(&self) -> TokenStream {
        if self.current_token@ is EOF {
            TokenStream::empty()
        } else {
            TokenStream::cons(self.current_token@, token_stream(self.text@, self.idx as int))
        }
    }

    /// Starts on a program text: the cursor stands behind the first token,
    /// which is the lookahead. Fails where the first token cannot be read.
    pub fn from(s: &String) -> (r: Result<Interpreter, Error>)
        ensures
            match next_token(s@, 0) {
                Ok((token, end)) => r matches Ok(p) && p.text@ == s@ && p.current_token@ == token
                    && p.idx == end && p.wf() && p.stream() == token_stream(s@, 0),
                Err(e) => r matches Err(x) && x == e,
            },
    {
        let mut a = Interpreter { text: chars_of(s.as_str()), current_token: Token::EOF, idx: 0 };
        match a.get_next_token() {
            Ok(_) => {
                proof {
                    reveal(Interpreter::stream);
                    lemma_next_token_advances(a.text@, 0);
                    lemma_end_of_input(a.text@);
                    assert(a.stream() =~= token_stream(a.text@, 0));
                }
                Ok(a)
            },
            Err(e) => Err(e),
        }
    }

    /// Reads the run of letters and digits at the cursor and moves the cursor
    /// past it. The run is a keyword if it spells one, else an identifier.
    pub fn _id(&mut self) -> (r: Token)
        requires
            old(self).idx <= old(self).text.len(),
        ensures
            final(self).text == old(self).text,
            final(self).current_token == old(self).current_token,
            final(self).idx == word_end(old(self).text@, old(self).idx as int),
            final(self).idx <= final(self).text.len(),
            r@ == ({
                let word = old(self).text@.subrange(old(self).idx as int, final(self).idx as int);
                match keyword_of(word) {
                    Some(keyword) => TokenView::KEYWORD(keyword),
                    None => TokenView::ID(word),
                }
            }),
    {
        let start: usize = self.idx;
        let mut i: usize = start;
        let mut word: Vec<char> = Vec::new();
        while i < self.text.len() && (letter(self.text[i]) || digit(self.text[i]))
            invariant
                start <= i <= self.text.len(),
                word_end(self.text@, start as int) == word_end(self.text@, i as int),
                word@ == self.text@.subrange(start as int, i as int),
            decreases self.text.len() - i,
        {
            word.push(self.text[i]);
            i += 1;
        }
        self.idx = i;
        match Keyword::lookup(&word) {
            Some(keyword) => Token::KEYWORD(keyword),
            None => Token::ID(string_from_chars(word)),
        }
    }

    /// Reads the numeral at the cursor and moves the cursor past it. On an
    /// error the cursor stays.
    pub fn get_digits(&mut self) -> (r: Result<Token, Error>)
        requires
            old(self).idx <= old(self).text.len(),
        ensures
            final(self).text == old(self).text,
            final(self).current_token == old(self).current_token,
            final(self).idx <= final(self).text.len(),
            match numeral(old(self).text@, old(self).idx as int) {
                Ok((token, end)) => r matches Ok(t) && t@ == token && final(self).idx == end,
                Err(e) => r matches Err(x) && x == e && final(self).idx == old(self).idx,
            },
    {
        let start: usize = self.idx;
        let n: usize = self.text.len();
        let mut whole_end: usize = start;
        let whole = get_digits(&self.text, &mut whole_end);
        proof {
            lemma_digits_end_bounds(self.text@, start as int);
        }
        if whole_end < n && self.text[whole_end] == '.' {
            let mut end: usize = whole_end + 1;
            let _ = get_digits(&self.text, &mut end);
            proof {
                lemma_digits_end_bounds(self.text@, whole_end + 1);
            }
            if end < n && self.text[end] == '.' {
                return Err(Error::MultipleDecimalPoints { position: end });
            }
            let lexeme = string_from_chars(slice_of(&self.text, start, end));
            match parse_real(lexeme.as_str()) {
                Some(bits) => {
                    self.idx = end;
                    Ok(Token::REAL_CONST(bits))
                },
                None => Err(Error::MalformedNumeral { position: start }),
            }
        } else {
            match whole {
                Some(value) => {
                    self.idx = whole_end;
                    Ok(Token::INTEGER_CONST(value))
                },
                None => Err(Error::NumeralOutOfRange { position: start }),
            }
        }
    }

    /// Moves the cursor, which stands on a `{`, past the closing `}`. Where
    /// there is none the cursor stays and the comment is reported.
    pub fn skip_comment(&mut self) -> (r: Result<(), Error>)
        requires
            old(self).idx <= old(self).text.len(),
        ensures
            final(self).text == old(self).text,
            final(self).current_token == old(self).current_token,
            final(self).idx <= final(self).text.len(),
            ({
                let close = comment_close(old(self).text@, old(self).idx as int);
                if close >= old(self).text.len() {
                    r == Err::<(), Error>(Error::UnterminatedComment { position: old(self).idx })
                        && final(self).idx == old(self).idx
                } else {
                    r is Ok && final(self).idx == close + 1
                }
            }),
    {
        let start: usize = self.idx;
        let n: usize = self.text.len();
        let mut i: usize = start;
        while i < n && self.text[i] != '}'
            invariant
                n == self.text.len(),
                start <= i <= n,
                comment_close(self.text@, start as int) == comment_close(self.text@, i as int),
            decreases n - i,
        {
            i += 1;
        }
        if i >= n {
            return Err(Error::UnterminatedComment { position: start });
        }
        self.idx = i + 1;
        Ok(())
    }

    /// Reads the next token, which becomes the lookahead, and moves the
    /// cursor past it. Whitespace and comments before it are skipped. At the
    /// end of the text the token is end-of-input, again and again. On a
    /// lexical error nothing changes.
    pub fn get_next_token(&mut self) -> (r: Result<Token, Error>)
        requires
            old(self).idx <= old(self).text.len(),
        ensures
            final(self).text == old(self).text,
            match next_token(old(self).text@, old(self).idx as int) {
                Ok((token, end)) => r matches Ok(t) && t@ == token && final(self).current_token@
                    == token && final(self).idx == end,
                Err(e) => r matches Err(x) && x == e && final(self).idx == old(self).idx
                    && final(self).current_token == old(self).current_token,
            },
            old(self).wf() ==> final(self).wf(),
            r is Ok && next_token(old(self).text@, 0) is Ok ==> final(self).wf(),
    {
        proof {
            lemma_next_token_advances(self.text@, self.idx as int);
            lemma_end_of_input(self.text@);
        }
        let saved: usize = self.idx;
        let n: usize = self.text.len();
        loop
            invariant
                n == self.text.len(),
                saved == old(self).idx,
                saved <= self.idx <= n,
                self.text == old(self).text,
                self.current_token == old(self).current_token,
                significant(self.text@, saved as int) == significant(self.text@, self.idx as int),
            ensures
                significant(self.text@, saved as int) == Ok::<int, Error>(self.idx as int),
            decreases n - self.idx,
        {
            if self.idx >= n {
                break ;
            }
            let c = self.text[self.idx];
            if c == ' ' || c == '\n' {
                self.idx += 1;
            } else if c == '{' {
                proof {
                    lemma_comment_close_bounds(self.text@, self.idx as int);
                }
                match self.skip_comment() {
                    Ok(()) => {},
                    Err(e) => {
                        self.idx = saved;
                        return Err(e);
                    },
                }
            } else {
                break ;
            }
        }
        let start: usize = self.idx;
        proof {
            lemma_word_end_bounds(self.text@, start as int);
        }
        let token = if start >= n {
            Token::EOF
        } else {
            let c = self.text[start];
            if letter(c) {
                self._id()
            } else if digit(c) {
                match self.get_digits() {
                    Ok(t) => t,
                    Err(e) => {
                        self.idx = saved;
                        return Err(e);
                    },
                }
            } else if c == ':' {
                if start + 1 < n && self.text[start + 1] == '=' {
                    self.idx = start + 2;
                    Token::ASSIGN
                } else {
                    self.idx = start + 1;
                    Token::COLON
                }
            } else if c == ';' {
                self.idx = start + 1;
                Token::SEMI
            } else if c == ',' {
                self.idx = start + 1;
                Token::COMMA
            } else if c == '.' {
                self.idx = start + 1;
                Token::DOT
            } else if c == '+' || c == '-' {
                self.idx = start + 1;
                Token::OP1(c)
            } else if c == '*' || c == '/' {
                self.idx = start + 1;
                Token::OP2(c)
            } else if c == '(' {
                self.idx = start + 1;
                Token::LP
            } else if c == ')' {
                self.idx = start + 1;
                Token::RP
            } else {
                self.idx = saved;
                return Err(Error::UnrecognizedCharacter { character: c, position: start });
            }
        };
        self.current_token = token.clone();
        Ok(token)
    }
}

/// At the end of a text the next token is end-of-input.
pub proof fn lemma_end_of_input(text: Seq<char>)
    ensures
        next_token(text, text.len() as int) == Ok::<(TokenView, int), Error>(
            (TokenView::EOF, text.len() as int),
        ),
{
}

} // verus!
