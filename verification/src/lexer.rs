//! Lexical analysis: turns a raw query string into the ordered token sequence
//! that the parser consumes.
//!
//! The whole tokenization rule set is written down once, as the recursive
//! specification `spec_lex_from`, and the executable `lex` is proved to return
//! exactly that: the same tokens on success, the same error otherwise.

use vstd::prelude::*;

use crate::text::{char_run_end, lemma_char_run_end, lemma_char_run_end_is, not_char_p};

verus! {

/// One lexical unit of the query language.
#[derive(Debug, PartialEq, Eq, Clone)]
pub enum Token {
    Asterisk,
    Comma,
    From,
    Select,
    Identifier(String),
    NumericLiteral(i64),
    StringLiteral(String),
}

/// Mathematical value of a token: identifier and string payloads as character
/// sequences, numbers as unbounded integers.
#[verifier::ext_equal]
pub enum TokenModel {
    Asterisk,
    Comma,
    From,
    Select,
    Identifier(Seq<char>),
    NumericLiteral(int),
    StringLiteral(Seq<char>),
}

impl View for Token {
    type V = TokenModel;

    open spec fn view(&self) -> TokenModel {
        match self {
            Token::Asterisk => TokenModel::Asterisk,
            Token::Comma => TokenModel::Comma,
            Token::From => TokenModel::From,
            Token::Select => TokenModel::Select,
            Token::Identifier(s) => TokenModel::Identifier(s@),
            Token::NumericLiteral(v) => TokenModel::NumericLiteral(*v as int),
            Token::StringLiteral(s) => TokenModel::StringLiteral(s@),
        }
    }
}

/// A lexing failure: a character outside every token rule, or a numeric
/// literal that does not fit a 64-bit signed integer. Positions count
/// characters from the start of the input.
#[derive(Debug, PartialEq, Eq, Clone, Copy)]
pub enum LexError {
    UnexpectedChar { position: usize, character: char },
    NumericOverflow { position: usize },
}

/// What `char::is_alphabetic` returns; a function of the character alone.
pub uninterp spec fn is_alphabetic_char(c: char) -> bool;

/// What `char::is_alphanumeric` returns; a function of the character alone.
pub uninterp spec fn is_alphanumeric_char(c: char) -> bool;

/// Relies on `char::is_alphabetic` from std: whether the character is a
/// Unicode letter, a property of the character alone.
#[verifier::external_body]
fn char_is_alphabetic(c: char) -> (r: bool)
    ensures
        r == is_alphabetic_char(c),
{
    c.is_alphabetic()
}

/// Relies on `char::is_alphanumeric` from std: whether the character is a
/// Unicode letter or numeric character, a property of the character alone.
#[verifier::external_body]
fn char_is_alphanumeric(c: char) -> (r: bool)
    ensures
        r == is_alphanumeric_char(c),
{
    c.is_alphanumeric()
}

pub open spec fn is_digit_char(c: char) -> bool {
    48 <= c as u32 && c as u32 <= 57
}

pub open spec fn digit_value(c: char) -> int {
    c as u32 - 48
}

fn digit_char(c: char) -> (r: bool)
    ensures
        r == is_digit_char(c),
{
    let u = c as u32;
    48 <= u && u <= 57
}

/// The alphanumeric-run predicate used for identifier tails.
pub open spec fn alnum_p() -> spec_fn(char) -> bool {
    |c: char| is_alphanumeric_char(c)
}

/// The digit-run predicate used for numeric literals.
pub open spec fn digit_p() -> spec_fn(char) -> bool {
    |c: char| is_digit_char(c)
}

/// Value of a digit sequence read in base ten.
pub open spec fn digits_val(s: Seq<char>) -> int
    decreases s.len(),
{
    if s.len() == 0 {
        0
    } else {
        digits_val(s.drop_last()) * 10 + digit_value(s.last())
    }
}

pub open spec fn all_digits(s: Seq<char>) -> bool {
    forall|k: int| 0 <= k < s.len() ==> is_digit_char(#[trigger] s[k])
}

pub proof fn lemma_digits_val_nonneg(s: Seq<char>)
    requires
        all_digits(s),
    ensures
        digits_val(s) >= 0,
    decreases s.len(),
{
    if s.len() > 0 {
        assert(all_digits(s.drop_last()));
        lemma_digits_val_nonneg(s.drop_last());
    }
}

/// Reading more digits can only grow the value.
pub proof fn lemma_digits_val_take_le(s: Seq<char>, m: int)
    requires
        all_digits(s),
        0 <= m <= s.len(),
    ensures
        digits_val(s.take(m)) <= digits_val(s),
    decreases s.len() - m,
{
    if m == s.len() {
        assert(s.take(m) =~= s);
    } else {
        assert(s.take(m + 1).drop_last() =~= s.take(m));
        assert(all_digits(s.take(m)));
        lemma_digits_val_nonneg(s.take(m));
        assert(digits_val(s.take(m)) <= digits_val(s.take(m + 1)));
        lemma_digits_val_take_le(s, m + 1);
    }
}

/// Case-insensitive equality of two characters, folding only the ASCII
/// uppercase letters.
pub open spec fn fold_char(c: char) -> int {
    if 65 <= c as u32 && c as u32 <= 90 {
        c as u32 + 32
    } else {
        c as u32 as int
    }
}

/// Case-insensitive equality of two character sequences (ASCII case only).
pub open spec fn seq_ieq(a: Seq<char>, b: Seq<char>) -> bool {
    a.len() == b.len() && forall|k: int| 0 <= k < a.len() ==> fold_char(#[trigger] a[k]) == fold_char(b[k])
}

fn fold_char_exec(c: char) -> (r: u32)
    ensures
        r as int == fold_char(c),
{
    let u = c as u32;
    if 65 <= u && u <= 90 {
        u + 32
    } else {
        u
    }
}

fn str_ieq(a: &str, b: &str) -> (r: bool)
    ensures
        r == seq_ieq(a@, b@),
{
    let na = a.unicode_len();
    let nb = b.unicode_len();
    if na != nb {
        return false;
    }
    let mut k: usize = 0;
    while k < na
        invariant
            na == a@.len(),
            na == b@.len(),
            k <= na,
            forall|m: int| 0 <= m < k ==> fold_char(#[trigger] a@[m]) == fold_char(b@[m]),
        decreases na - k,
    {
        let ca = a.get_char(k);
        let cb = b.get_char(k);
        if fold_char_exec(ca) != fold_char_exec(cb) {
            return false;
        }
        k += 1;
    }
    true
}

/// Prepends a token to the result of lexing the rest of the input.
pub open spec fn lex_cons(
    t: TokenModel,
    m: Result<Seq<TokenModel>, LexError>,
) -> Result<Seq<TokenModel>, LexError> {
    match m {
        Ok(ts) => Ok(seq![t] + ts),
        Err(e) => Err(e),
    }
}

/// Prepends already-emitted tokens to the result of lexing the rest.
pub open spec fn lex_join(
    pre: Seq<TokenModel>,
    m: Result<Seq<TokenModel>, LexError>,
) -> Result<Seq<TokenModel>, LexError> {
    match m {
        Ok(ts) => Ok(pre + ts),
        Err(e) => Err(e),
    }
}

proof fn lemma_lex_join_cons(pre: Seq<TokenModel>, t: TokenModel, m: Result<Seq<TokenModel>, LexError>)
    ensures
        lex_join(pre, lex_cons(t, m)) == lex_join(pre.push(t), m),
{
    match m {
        Ok(ts) => {
            assert(pre + (seq![t] + ts) =~= pre.push(t) + ts);
        },
        Err(_) => {},
    }
}

/// The tokenization rules, reading from position `i`:
/// `*` and `,` are single-character tokens; a double-quoted span is an
/// identifier and a single-quoted span a string literal, quotes stripped, an
/// unterminated quote consuming to the end of the input; a run of
/// alphanumeric characters starting with an alphabetic one is a keyword if it
/// matches `SELECT` or `FROM` case-insensitively and an identifier otherwise;
/// a run of ASCII digits is a numeric literal, failing if it exceeds
/// `i64::MAX`; space and newline are skipped; anything else is an error.
pub open spec fn spec_lex_from(s: Seq<char>, i: int) -> Result<Seq<TokenModel>, LexError>
    decreases s.len() - i
        when 0 <= i <= s.len()
        via spec_lex_from_decreases
{
    if i >= s.len() {
        Ok(Seq::empty())
    } else {
        let c = s[i];
        if c == '*' {
            lex_cons(TokenModel::Asterisk, spec_lex_from(s, i + 1))
        } else if c == ',' {
            lex_cons(TokenModel::Comma, spec_lex_from(s, i + 1))
        } else if c == '"' {
            let j = char_run_end(s, i + 1, not_char_p('"'));
            let next = if j < s.len() { j + 1 } else { j };
            lex_cons(TokenModel::Identifier(s.subrange(i + 1, j)), spec_lex_from(s, next))
        } else if c == '\'' {
            let j = char_run_end(s, i + 1, not_char_p('\''));
            let next = if j < s.len() { j + 1 } else { j };
            lex_cons(TokenModel::StringLiteral(s.subrange(i + 1, j)), spec_lex_from(s, next))
        } else if is_alphabetic_char(c) {
            let j = char_run_end(s, i + 1, alnum_p());
            let txt = s.subrange(i, j);
            let tok = if seq_ieq(txt, "SELECT"@) {
                TokenModel::Select
            } else if seq_ieq(txt, "FROM"@) {
                TokenModel::From
            } else {
                TokenModel::Identifier(txt)
            };
            lex_cons(tok, spec_lex_from(s, j))
        } else if is_digit_char(c) {
            let j = char_run_end(s, i + 1, digit_p());
            let run = s.subrange(i, j);
            if digits_val(run) > i64::MAX as int {
                Err(LexError::NumericOverflow { position: i as usize })
            } else {
                lex_cons(TokenModel::NumericLiteral(digits_val(run)), spec_lex_from(s, j))
            }
        } else if c == ' ' || c == '\n' {
            spec_lex_from(s, i + 1)
        } else {
            Err(LexError::UnexpectedChar { position: i as usize, character: c })
        }
    }
}

#[via_fn]
proof fn spec_lex_from_decreases(s: Seq<char>, i: int) {
    if 0 <= i && i < s.len() {
        lemma_char_run_end(s, i + 1, not_char_p('"'));
        lemma_char_run_end(s, i + 1, not_char_p('\''));
        lemma_char_run_end(s, i + 1, alnum_p());
        lemma_char_run_end(s, i + 1, digit_p());
    }
}

/// The tokenization of a whole input.
pub open spec fn spec_lex(s: Seq<char>) -> Result<Seq<TokenModel>, LexError> {
    spec_lex_from(s, 0)
}

/// The token sequence a vector of tokens stands for.
pub open spec fn tokens_model(ts: Seq<Token>) -> Seq<TokenModel> {
    ts.map_values(|t: Token| t@)
}

pub proof fn lemma_tokens_model_push(ts: Seq<Token>, t: Token)
    ensures
        tokens_model(ts.push(t)) == tokens_model(ts).push(t@),
{
    assert(tokens_model(ts.push(t)) =~= tokens_model(ts).push(t@));
}

fn alnum_run_end(s: &str, from: usize, n: usize) -> (j: usize)
    requires
        n == s@.len(),
        from <= n,
    ensures
        j as int == char_run_end(s@, from as int, alnum_p()),
        from <= j <= n,
{
    let mut j = from;
    while j < n
        invariant
            n == s@.len(),
            from <= j <= n,
            forall|k: int| from <= k < j ==> #[trigger] (alnum_p())(s@[k]),
        decreases n - j,
    {
        let c = s.get_char(j);
        if !char_is_alphanumeric(c) {
            proof {
                lemma_char_run_end_is(s@, from as int, j as int, alnum_p());
            }
            return j;
        }
        j += 1;
    }
    proof {
        lemma_char_run_end_is(s@, from as int, j as int, alnum_p());
    }
    j
}

fn digit_run_end(s: &str, from: usize, n: usize) -> (j: usize)
    requires
        n == s@.len(),
        from <= n,
    ensures
        j as int == char_run_end(s@, from as int, digit_p()),
        from <= j <= n,
{
    let mut j = from;
    while j < n
        invariant
            n == s@.len(),
            from <= j <= n,
            forall|k: int| from <= k < j ==> #[trigger] (digit_p())(s@[k]),
        decreases n - j,
    {
        let c = s.get_char(j);
        if !digit_char(c) {
            proof {
                lemma_char_run_end_is(s@, from as int, j as int, digit_p());
            }
            return j;
        }
        j += 1;
    }
    proof {
        lemma_char_run_end_is(s@, from as int, j as int, digit_p());
    }
    j
}

/// Reads the digit run `[i, j)` as a base-ten `i64`, failing on overflow.
fn lex_number(s: &str, i: usize, j: usize) -> (r: Result<i64, LexError>)
    requires
        i < j <= s@.len(),
        all_digits(s@.subrange(i as int, j as int)),
    ensures
        digits_val(s@.subrange(i as int, j as int)) > i64::MAX as int ==> r == Err::<
            i64,
            LexError,
        >(LexError::NumericOverflow { position: i }),
        digits_val(s@.subrange(i as int, j as int)) <= i64::MAX as int ==> (r matches Ok(v)
            && v as int == digits_val(s@.subrange(i as int, j as int))),
{
    let ghost run = s@.subrange(i as int, j as int);
    let mut v: i64 = 0;
    let mut k: usize = i;
    while k < j
        invariant
            i <= k <= j <= s@.len(),
            all_digits(run),
            run == s@.subrange(i as int, j as int),
            0 <= v,
            v as int == digits_val(s@.subrange(i as int, k as int)),
        decreases j - k,
    {
        let c = s.get_char(k);
        proof {
            assert(run[k - i] == s@[k as int]);
            assert(is_digit_char(s@[k as int]));
        }
        let d = (c as u32 - 48) as i64;
        proof {
            assert(s@.subrange(i as int, k + 1).drop_last() =~= s@.subrange(i as int, k as int));
            assert(s@.subrange(i as int, k + 1).last() == s@[k as int]);
            assert(digits_val(s@.subrange(i as int, k + 1)) == v as int * 10 + d as int);
            assert(s@.subrange(i as int, k + 1) =~= run.take(k + 1 - i));
        }
        let v10 = match v.checked_mul(10) {
            Some(x) => x,
            None => {
                proof {
                    lemma_digits_val_take_le(run, k + 1 - i);
                }
                return Err(LexError::NumericOverflow { position: i });
            },
        };
        let nv = match v10.checked_add(d) {
            Some(x) => x,
            None => {
                proof {
                    lemma_digits_val_take_le(run, k + 1 - i);
                }
                return Err(LexError::NumericOverflow { position: i });
            },
        };
        v = nv;
        k += 1;
    }
    proof {
        assert(s@.subrange(i as int, j as int) =~= s@.subrange(i as int, k as int));
    }
    Ok(v)
}

/// Tokenizes the input, left to right. Returns exactly what the tokenization
/// rules (`spec_lex`) say: the same token sequence on success, the same error
/// on the same input otherwise.
pub fn lex(input: &str) -> (r: Result<Vec<Token>, LexError>)
    ensures
        (r is Ok) == (spec_lex(input@) is Ok),
        r matches Ok(ts) ==> spec_lex(input@) == Ok::<Seq<TokenModel>, LexError>(tokens_model(ts@)),
        r matches Err(e) ==> spec_lex(input@) == Err::<Seq<TokenModel>, LexError>(e),
{
    let ghost s = input@;
    let n = input.unicode_len();
    let mut tokens: Vec<Token> = Vec::new();
    let mut i: usize = 0;
    while i < n
        invariant
            n == s.len(),
            s == input@,
            i <= n,
            spec_lex(s) == lex_join(tokens_model(tokens@), spec_lex_from(s, i as int)),
        decreases n - i,
    {
        let ghost pre = tokens_model(tokens@);
        let ghost toks0 = tokens@;
        let c = input.get_char(i);
        if c == '*' {
            tokens.push(Token::Asterisk);
            proof {
                lemma_lex_join_cons(pre, TokenModel::Asterisk, spec_lex_from(s, i + 1));
                lemma_tokens_model_push(toks0, Token::Asterisk);
            }
            i += 1;
        } else if c == ',' {
            tokens.push(Token::Comma);
            proof {
                lemma_lex_join_cons(pre, TokenModel::Comma, spec_lex_from(s, i + 1));
                lemma_tokens_model_push(toks0, Token::Comma);
            }
            i += 1;
        } else if c == '"' {
            let j = crate::text::scan_until(input, i + 1, n, '"');
            let text = input.substring_char(i + 1, j).to_owned();
            let ghost tok = TokenModel::Identifier(s.subrange(i + 1, j as int));
            let pushed = Token::Identifier(text);
            tokens.push(pushed);
            let next = if j < n {
                j + 1
            } else {
                j
            };
            proof {
                lemma_lex_join_cons(pre, tok, spec_lex_from(s, next as int));
                lemma_tokens_model_push(toks0, tokens@.last());
            }
            i = next;
        } else if c == '\'' {
            let j = crate::text::scan_until(input, i + 1, n, '\'');
            let text = input.substring_char(i + 1, j).to_owned();
            let ghost tok = TokenModel::StringLiteral(s.subrange(i + 1, j as int));
            let pushed = Token::StringLiteral(text);
            tokens.push(pushed);
            let next = if j < n {
                j + 1
            } else {
                j
            };
            proof {
                lemma_lex_join_cons(pre, tok, spec_lex_from(s, next as int));
                lemma_tokens_model_push(toks0, tokens@.last());
            }
            i = next;
        } else if char_is_alphabetic(c) {
            let j = alnum_run_end(input, i + 1, n);
            let ident = input.substring_char(i, j);
            let ghost txt = s.subrange(i as int, j as int);
            let tok = if str_ieq(ident, "SELECT") {
                Token::Select
            } else if str_ieq(ident, "FROM") {
                Token::From
            } else {
                Token::Identifier(ident.to_owned())
            };
            let ghost tokm = tok@;
            tokens.push(tok);
            proof {
                lemma_lex_join_cons(pre, tokm, spec_lex_from(s, j as int));
                lemma_tokens_model_push(toks0, tokens@.last());
            }
            i = j;
        } else if digit_char(c) {
            let j = digit_run_end(input, i + 1, n);
            let ghost run = s.subrange(i as int, j as int);
            proof {
                lemma_char_run_end(s, i + 1, digit_p());
                assert forall|k: int| 0 <= k < run.len() implies is_digit_char(#[trigger] run[k]) by {
                    assert(run[k] == s[i + k]);
                    if k > 0 {
                        assert((digit_p())(s[i + k]));
                    }
                }
            }
            match lex_number(input, i, j) {
                Ok(v) => {
                    tokens.push(Token::NumericLiteral(v));
                    proof {
                        lemma_lex_join_cons(
                            pre,
                            TokenModel::NumericLiteral(digits_val(run)),
                            spec_lex_from(s, j as int),
                        );
                        lemma_tokens_model_push(toks0, Token::NumericLiteral(v));
                    }
                    i = j;
                },
                Err(e) => {
                    return Err(e);
                },
            }
        } else if c == ' ' || c == '\n' {
            i += 1;
        } else {
            return Err(LexError::UnexpectedChar { position: i, character: c });
        }
    }
    proof {
        assert(spec_lex_from(s, n as int) == Ok::<Seq<TokenModel>, LexError>(Seq::empty()));
        assert(tokens_model(tokens@) + Seq::<TokenModel>::empty() =~= tokens_model(tokens@));
    }
    Ok(tokens)
}

} // verus!
