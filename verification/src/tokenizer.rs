//! Lexical analysis: raw source text to an ordered token sequence.
//!
//! The rules, applied left to right: whitespace separates and is dropped;
//! parentheses stand alone; a double quote opens a string literal that runs
//! verbatim to the next double quote; a leading digit opens a numeric
//! literal that runs to the next delimiter; anything else opens a symbol
//! that runs to the next delimiter, with the reserved words `true` and
//! `false` becoming boolean literals. The first offence stops the whole
//! scan.

use vstd::prelude::*;
use vstd::string::StrSliceExecFns;

use crate::num::{is_digit, parse_num_spec, Num};

verus! {

/// A lexical token.
#[derive(Debug, Clone, PartialEq)]
pub enum Token {
    OpenParenthesis,
    CloseParenthesis,
    Symbol(String),
    StringLiteral(String),
    Boolean(bool),
    Number(Num),
}

/// The mathematical shape of a token: its text as a character sequence.
pub enum SpecToken {
    OpenParenthesis,
    CloseParenthesis,
    Symbol(Seq<char>),
    StringLiteral(Seq<char>),
    Boolean(bool),
    Number(Num),
}

impl View for Token {
    type V = SpecToken;

    open spec fn view(&self) -> SpecToken {
        match self {
            Token::OpenParenthesis => SpecToken::OpenParenthesis,
            Token::CloseParenthesis => SpecToken::CloseParenthesis,
            Token::Symbol(s) => SpecToken::Symbol(s@),
            Token::StringLiteral(s) => SpecToken::StringLiteral(s@),
            Token::Boolean(b) => SpecToken::Boolean(*b),
            Token::Number(n) => SpecToken::Number(*n),
        }
    }
}

impl DeepView for Token {
    type V = SpecToken;

    open spec fn deep_view(&self) -> SpecToken {
        self.view()
    }
}

/// A lexical failure.
#[derive(Debug, Clone, Copy, PartialEq, Eq, Structural)]
pub enum LexError {
    /// The text ended before the closing quote of a string literal.
    UnterminatedString,
    /// A token that began with a digit did not read as a number.
    InvalidNumber,
}

/// The characters that end a bare token.
pub open spec fn is_space(c: char) -> bool {
    c == ' ' || c == '\t' || c == '\n' || c == '\r'
}

/// Whether `c` ends a bare token: whitespace or a parenthesis.
pub open spec fn is_delim(c: char) -> bool {
    is_space(c) || c == '(' || c == ')'
}

/// How many characters from `i` on belong to the current bare token.
pub open spec fn token_len(s: Seq<char>, i: nat) -> nat
    decreases s.len() - i,
{
    if i >= s.len() || is_delim(s[i as int]) {
        0
    } else {
        1 + token_len(s, i + 1)
    }
}

/// How many characters from `i` on stand before the next double quote, or
/// `None` when no quote follows.
pub open spec fn quote_len(s: Seq<char>, i: nat) -> Option<nat>
    decreases s.len() - i,
{
    if i >= s.len() {
        Option::None
    } else if s[i as int] == '"' {
        Some(0nat)
    } else {
        match quote_len(s, i + 1) {
            Some(k) => Some((k + 1) as nat),
            Option::None => Option::None,
        }
    }
}

/// The first following quote fixes the span of a string literal.
pub proof fn lemma_quote_len_at(s: Seq<char>, i: nat, q: int)
    requires
        i <= q < s.len(),
        s[q] == '"',
        forall|j: int| i <= j < q ==> s[j] != '"',
    ensures
        quote_len(s, i) == Some((q - i) as nat),
    decreases q - i,
{
    if i < q {
        lemma_quote_len_at(s, i + 1, q);
    }
}

/// Put a token in front of the outcome of lexing the rest.
pub open spec fn lex_cons(
    t: SpecToken,
    rest: Result<Seq<SpecToken>, LexError>,
) -> Result<Seq<SpecToken>, LexError> {
    match rest {
        Ok(ts) => Ok(seq![t] + ts),
        Err(e) => Err(e),
    }
}

/// The token sequence of the text from position `i` on, or the first
/// lexical failure.
pub open spec fn lex_from(s: Seq<char>, i: nat) -> Result<Seq<SpecToken>, LexError>
    decreases s.len() - i,
{
    if i >= s.len() {
        Ok(Seq::empty())
    } else {
        let c = s[i as int];
        if is_space(c) {
            lex_from(s, i + 1)
        } else if c == '(' {
            lex_cons(SpecToken::OpenParenthesis, lex_from(s, i + 1))
        } else if c == ')' {
            lex_cons(SpecToken::CloseParenthesis, lex_from(s, i + 1))
        } else if c == '"' {
            match quote_len(s, i + 1) {
                Option::None => Err(LexError::UnterminatedString),
                Some(k) => lex_cons(
                    SpecToken::StringLiteral(s.subrange(i as int + 1, i as int + 1 + k)),
                    lex_from(s, min_nat(i + k + 2, s.len())),
                ),
            }
        } else if is_digit(c) {
            let l = 1 + token_len(s, i + 1);
            match parse_num_spec(s.subrange(i as int, i as int + l)) {
                Option::None => Err(LexError::InvalidNumber),
                Some(n) => lex_cons(SpecToken::Number(n), lex_from(s, min_nat(i + l, s.len()))),
            }
        } else {
            let l = 1 + token_len(s, i + 1);
            let txt = s.subrange(i as int, i as int + l);
            let t = if txt == "true"@ {
                SpecToken::Boolean(true)
            } else if txt == "false"@ {
                SpecToken::Boolean(false)
            } else {
                SpecToken::Symbol(txt)
            };
            lex_cons(t, lex_from(s, min_nat(i + l, s.len())))
        }
    }
}

/// The smaller of two counts.
pub open spec fn min_nat(a: nat, b: nat) -> nat {
    if a <= b {
        a
    } else {
        b
    }
}

/// What the whole text lexes to.
pub open spec fn lex_spec(s: Seq<char>) -> Result<Seq<SpecToken>, LexError> {
    lex_from(s, 0)
}

/// Tokens already emitted, joined with the outcome of lexing the rest.
pub open spec fn lex_join(
    done: Seq<SpecToken>,
    rest: Result<Seq<SpecToken>, LexError>,
) -> Result<Seq<SpecToken>, LexError> {
    match rest {
        Ok(ts) => Ok(done + ts),
        Err(e) => Err(e),
    }
}

/// The characters of `s`, in order.
pub fn str_to_chars(s: &str) -> (r: Vec<char>)
    ensures
        r@ == s@,
{
    let n = s.unicode_len();
    let mut r: Vec<char> = Vec::new();
    let mut i: usize = 0;
    while i < n
        invariant
            i <= n,
            n == s@.len(),
            r@ == s@.take(i as int),
        decreases n - i,
    {
        let c = s.get_char(i);
        r.push(c);
        proof {
            assert(r@ =~= s@.take(i + 1));
        }
        i = i + 1;
    }
    proof {
        assert(r@ =~= s@);
    }
    r
}

/// Relies on `String: FromIterator<char>`: collecting characters builds the
/// string of exactly those characters in order.
#[verifier::external_body]
pub fn string_from_chars(v: &Vec<char>) -> (s: String)
    ensures
        s@ == v@,
{
    v.iter().collect()
}

fn is_space_char(c: char) -> (r: bool)
    ensures
        r == is_space(c),
{
    c == ' ' || c == '\t' || c == '\n' || c == '\r'
}

fn is_delim_char(c: char) -> (r: bool)
    ensures
        r == is_delim(c),
{
    is_space_char(c) || c == '(' || c == ')'
}

/// Scan a bare token: the first position at or after `j0` that ends it.
fn scan_token_end(chars: &Vec<char>, j0: usize) -> (j: usize)
    requires
        j0 <= chars@.len(),
    ensures
        j0 <= j <= chars@.len(),
        token_len(chars@, j0 as nat) == j - j0,
        forall|p: int| j0 <= p < j ==> !is_delim(chars@[p]),
        j < chars@.len() ==> is_delim(chars@[j as int]),
    decreases chars@.len() - j0,
{
    let n = chars.len();
    let mut j = j0;
    while j < n && !is_delim_char(chars[j])
        invariant
            j0 <= j <= n,
            n == chars@.len(),
            forall|p: int| j0 <= p < j ==> !is_delim(chars@[p]),
            token_len(chars@, j0 as nat) == (j - j0) + token_len(chars@, j as nat),
        decreases n - j,
    {
        j = j + 1;
    }
    j
}

/// Turn source text into its token sequence, or report the first lexical
/// failure. The result is exactly what `lex_spec` says of the text.
pub fn tokenize(input: &String) -> (r: Result<Vec<Token>, LexError>)
    ensures
        match r {
            Ok(ts) => lex_spec(input@) == Ok::<Seq<SpecToken>, LexError>(ts.deep_view()),
            Err(e) => lex_spec(input@) == Err::<Seq<SpecToken>, LexError>(e),
        },
{
    let chars = str_to_chars(input.as_str());
    let ghost t = input@;
    let n = chars.len();
    let mut tokens: Vec<Token> = Vec::new();
    let mut i: usize = 0;
    proof {
        assert(lex_join(tokens.deep_view(), lex_from(t, 0)) =~= lex_from(t, 0)) by {
            if lex_from(t, 0) is Ok {
                assert(tokens.deep_view() + lex_from(t, 0)->Ok_0 =~= lex_from(t, 0)->Ok_0);
            }
        }
    }
    while i < n
        invariant
            i <= n,
            n == t.len(),
            chars@ == t,
            t == input@,
            lex_join(tokens.deep_view(), lex_from(t, i as nat)) == lex_from(t, 0),
        decreases n - i,
    {
        let c = chars[i];
        if is_space_char(c) {
            i = i + 1;
        } else if c == '(' {
            let ghost prev = tokens.deep_view();
            tokens.push(Token::OpenParenthesis);
            proof {
                assert(tokens.deep_view() =~= prev.push(SpecToken::OpenParenthesis));
                lemma_join_step(t, prev, tokens.deep_view(), i as nat, (i + 1) as nat,
                    SpecToken::OpenParenthesis);
            }
            i = i + 1;
        } else if c == ')' {
            let ghost prev = tokens.deep_view();
            tokens.push(Token::CloseParenthesis);
            proof {
                assert(tokens.deep_view() =~= prev.push(SpecToken::CloseParenthesis));
                lemma_join_step(t, prev, tokens.deep_view(), i as nat, (i + 1) as nat,
                    SpecToken::CloseParenthesis);
            }
            i = i + 1;
        } else if c == '"' {
            let mut content: Vec<char> = Vec::new();
            let mut j = i + 1;
            while j < n && chars[j] != '"'
                invariant
                    i + 1 <= j <= n,
                    n == t.len(),
                    chars@ == t,
                    content@ == t.subrange(i + 1, j as int),
                    quote_len(t, (i + 1) as nat) == match quote_len(t, j as nat) {
                        Some(k) => Some((k + j - i - 1) as nat),
                        Option::None => Option::None::<nat>,
                    },
                decreases n - j,
            {
                content.push(chars[j]);
                proof {
                    assert(content@ =~= t.subrange(i + 1, j + 1));
                }
                j = j + 1;
            }
            if j == n {
                // The text ended before a closing quote.
                proof {
                    assert(quote_len(t, j as nat) is None);
                    assert(lex_from(t, i as nat) == Err::<Seq<SpecToken>, LexError>(
                        LexError::UnterminatedString,
                    ));
                }
                return Err(LexError::UnterminatedString);
            }
            let ghost prev = tokens.deep_view();
            tokens.push(Token::StringLiteral(string_from_chars(&content)));
            proof {
                assert(quote_len(t, j as nat) == Some(0nat));
                let k = (j - i - 1) as nat;
                assert(quote_len(t, (i + 1) as nat) == Some(k));
                assert(t.subrange(i + 1, i + 1 + k) =~= content@);
                assert(min_nat((i as nat + k + 2) as nat, t.len()) == (j + 1) as nat);
                assert(tokens.deep_view() =~= prev.push(SpecToken::StringLiteral(content@)));
                lemma_join_step(t, prev, tokens.deep_view(), i as nat, (j + 1) as nat,
                    SpecToken::StringLiteral(content@));
            }
            i = j + 1;
        } else {
            let dg = crate::num::char_digit(c);
            if dg.is_some() {
                let j = scan_token_end(&chars, i + 1);
                let ghost l = 1 + token_len(t, (i + 1) as nat);
                proof {
                    assert(i + l == j as int);
                }
                match crate::num::parse_chars(&chars, i, j) {
                    Option::None => {
                        proof {
                            assert(lex_from(t, i as nat) == Err::<Seq<SpecToken>, LexError>(
                                LexError::InvalidNumber,
                            ));
                        }
                        return Err(LexError::InvalidNumber);
                    },
                    Some(nu) => {
                        let ghost prev = tokens.deep_view();
                        tokens.push(Token::Number(nu));
                        proof {
                            assert(tokens.deep_view() =~= prev.push(SpecToken::Number(nu)));
                            lemma_join_step(t, prev, tokens.deep_view(), i as nat, j as nat,
                                SpecToken::Number(nu));
                        }
                        i = j;
                    },
                }
            } else {
                let j = scan_token_end(&chars, i + 1);
                let ghost l = 1 + token_len(t, (i + 1) as nat);
                proof {
                    assert(i + l == j as int);
                }
                let mut sym: Vec<char> = Vec::new();
                let mut p = i;
                while p < j
                    invariant
                        i <= p <= j <= n,
                        n == t.len(),
                        chars@ == t,
                        sym@ == t.subrange(i as int, p as int),
                    decreases j - p,
                {
                    sym.push(chars[p]);
                    proof {
                        assert(sym@ =~= t.subrange(i as int, p + 1));
                    }
                    p = p + 1;
                }
                let ghost txt = t.subrange(i as int, j as int);
                proof {
                    assert(sym@ == txt);
                }
                let is_true = sym.len() == 4 && sym[0] == 't' && sym[1] == 'r' && sym[2] == 'u'
                    && sym[3] == 'e';
                let is_false = sym.len() == 5 && sym[0] == 'f' && sym[1] == 'a' && sym[2] == 'l'
                    && sym[3] == 's' && sym[4] == 'e';
                proof {
                    reveal_strlit("true");
                    reveal_strlit("false");
                    assert(is_true == (txt == "true"@)) by {
                        reveal_strlit("true");
                        if is_true {
                            assert(txt =~= "true"@);
                        } else {
                            if txt == "true"@ {
                                assert(txt[0] == 't' && txt[1] == 'r' && txt[2] == 'u' && txt[3]
                                    == 'e' && txt.len() == 4);
                            }
                        }
                    }
                    assert(is_false == (txt == "false"@)) by {
                        reveal_strlit("false");
                        if is_false {
                            assert(txt =~= "false"@);
                        } else {
                            if txt == "false"@ {
                                assert(txt[0] == 'f' && txt[1] == 'a' && txt[2] == 'l' && txt[3]
                                    == 's' && txt[4] == 'e' && txt.len() == 5);
                            }
                        }
                    }
                }
                let tok: Token = if is_true {
                    Token::Boolean(true)
                } else if is_false {
                    Token::Boolean(false)
                } else {
                    Token::Symbol(string_from_chars(&sym))
                };
                let ghost prev = tokens.deep_view();
                proof {
                    assert(tok@ == (if txt == "true"@ {
                        SpecToken::Boolean(true)
                    } else if txt == "false"@ {
                        SpecToken::Boolean(false)
                    } else {
                        SpecToken::Symbol(txt)
                    }));
                }
                tokens.push(tok);
                proof {
                    assert(tokens.deep_view() =~= prev.push(tok@));
                    lemma_join_step(t, prev, tokens.deep_view(), i as nat, j as nat, tok@);
                }
                i = j;
            }
        }
    }
    proof {
        assert(lex_from(t, i as nat) == Ok::<Seq<SpecToken>, LexError>(Seq::empty()));
        if lex_from(t, 0) is Ok {
            assert(tokens.deep_view() + Seq::<SpecToken>::empty() =~= tokens.deep_view());
        }
    }
    Ok(tokens)
}

/// One emitted token keeps the running join equal to the whole lex: if
/// lexing from `i` conses `tok` onto lexing from `nxt`, then moving `tok`
/// into the done side preserves the join.
proof fn lemma_join_step(
    t: Seq<char>,
    prev: Seq<SpecToken>,
    cur: Seq<SpecToken>,
    i: nat,
    nxt: nat,
    tok: SpecToken,
)
    requires
        lex_from(t, i) == lex_cons(tok, lex_from(t, nxt)),
        cur == prev.push(tok),
        lex_join(prev, lex_from(t, i)) == lex_from(t, 0),
    ensures
        lex_join(cur, lex_from(t, nxt)) == lex_from(t, 0),
{
    match lex_from(t, nxt) {
        Ok(ts) => {
            assert(prev + (seq![tok] + ts) =~= cur + ts);
        },
        Err(e) => {},
    }
}

} // verus!
