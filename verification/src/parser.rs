//! Parsing: consumes the token sequence with one token of lookahead and
//! produces a validated abstract syntax tree for a `SELECT` statement.
//!
//! Grammar:
//! ```text
//! Select     := SELECT SelectList From
//! SelectList := '*'                        -- '*' must be followed by FROM
//!             | Identifier (',' Identifier)*
//! From       := FROM Identifier
//! ```
//! The grammar rules are written down once, as the recursive specification
//! `spec_parse`, and the executable `parse` is proved to return exactly that.

use vstd::prelude::*;

use crate::lexer::{lex, spec_lex, tokens_model, LexError, Token, TokenModel};

verus! {

/// A parsed `SELECT` statement.
#[derive(Debug, PartialEq, Eq, Clone)]
pub struct Select {
    pub select_list: SelectList,
    pub from: FromClause,
}

/// The single table reference of a query.
#[derive(Debug, PartialEq, Eq, Clone)]
pub struct FromClause {
    pub table: String,
}

/// The requested columns: every column, or an ordered non-empty subset.
#[derive(Debug, PartialEq, Eq, Clone)]
pub enum SelectList {
    All,
    Subset(Vec<SelectListItem>),
}

/// One requested column.
#[derive(Debug, PartialEq, Eq, Clone)]
pub struct SelectListItem {
    pub name: String,
}

/// Mathematical value of a select list: the requested column names in order.
#[verifier::ext_equal]
pub enum SelectListModel {
    All,
    Subset(Seq<Seq<char>>),
}

/// Mathematical value of a parsed statement.
#[verifier::ext_equal]
pub struct SelectModel {
    pub select_list: SelectListModel,
    pub table: Seq<char>,
}

impl View for SelectListItem {
    type V = Seq<char>;

    open spec fn view(&self) -> Seq<char> {
        self.name@
    }
}

impl View for SelectList {
    type V = SelectListModel;

    open spec fn view(&self) -> SelectListModel {
        match self {
            SelectList::All => SelectListModel::All,
            SelectList::Subset(items) => SelectListModel::Subset(items_model(items@)),
        }
    }
}

impl View for FromClause {
    type V = Seq<char>;

    open spec fn view(&self) -> Seq<char> {
        self.table@
    }
}

impl View for Select {
    type V = SelectModel;

    open spec fn view(&self) -> SelectModel {
        SelectModel { select_list: self.select_list@, table: self.from@ }
    }
}

/// The column names a vector of select items stands for.
pub open spec fn items_model(items: Seq<SelectListItem>) -> Seq<Seq<char>> {
    items.map_values(|it: SelectListItem| it@)
}

proof fn lemma_items_model_push(items: Seq<SelectListItem>, it: SelectListItem)
    ensures
        items_model(items.push(it)) == items_model(items).push(it@),
{
    assert(items_model(items.push(it)) =~= items_model(items).push(it@));
}

/// A parsing failure. Each variant names the token rule that was violated.
#[derive(Debug, PartialEq, Eq, Clone, Copy)]
pub enum ParseError {
    /// The input could not be tokenized at all.
    Lex(LexError),
    /// The query does not start with `SELECT`.
    ExpectedSelect,
    /// After `SELECT`, neither `*` nor an identifier follows.
    ExpectedSelectList,
    /// `*` is not followed by `FROM`.
    StarWithoutFrom,
    /// A comma is not followed by an identifier.
    ExpectedIdentifier,
    /// An identifier is followed by neither `,` nor `FROM`.
    ExpectedCommaOrFrom,
    /// The token stream ends inside the select list.
    MissingFrom,
    /// The `FROM` keyword is missing where required.
    ExpectedFrom,
    /// `FROM` is not followed by a table identifier.
    ExpectedTableName,
}

/// Parses the comma-separated identifier list starting at position `i`,
/// stopping (without consuming) at `FROM`. Returns the names and the position
/// of the `FROM` token.
pub open spec fn spec_parse_items(ts: Seq<TokenModel>, i: int) -> Result<
    (Seq<Seq<char>>, int),
    ParseError,
>
    decreases ts.len() - i
        when 0 <= i
{
    if i >= ts.len() {
        Err(ParseError::MissingFrom)
    } else if ts[i] is Identifier {
        let name = ts[i]->Identifier_0;
        if i + 1 < ts.len() && ts[i + 1] is Comma {
            match spec_parse_items(ts, i + 2) {
                Ok((names, next)) => Ok((seq![name] + names, next)),
                Err(e) => Err(e),
            }
        } else if i + 1 < ts.len() && ts[i + 1] is From {
            Ok((seq![name], i + 1))
        } else {
            Err(ParseError::ExpectedCommaOrFrom)
        }
    } else {
        Err(ParseError::ExpectedIdentifier)
    }
}

/// Parses the select list, which starts at position 1 (after `SELECT`).
/// Returns the list and the position of the `FROM` token.
pub open spec fn spec_parse_list(ts: Seq<TokenModel>) -> Result<(SelectListModel, int), ParseError> {
    if ts.len() <= 1 {
        Err(ParseError::ExpectedSelectList)
    } else if ts[1] is Asterisk {
        if 2 < ts.len() && ts[2] is From {
            Ok((SelectListModel::All, 2))
        } else {
            Err(ParseError::StarWithoutFrom)
        }
    } else if ts[1] is Identifier {
        match spec_parse_items(ts, 1) {
            Ok((names, next)) => Ok((SelectListModel::Subset(names), next)),
            Err(e) => Err(e),
        }
    } else {
        Err(ParseError::ExpectedSelectList)
    }
}

/// Parses `FROM table` starting at position `i`. Returns the table name and
/// the position after it.
pub open spec fn spec_parse_from(ts: Seq<TokenModel>, i: int) -> Result<(Seq<char>, int), ParseError> {
    if 0 <= i && i < ts.len() && ts[i] is From {
        if i + 1 < ts.len() && ts[i + 1] is Identifier {
            Ok((ts[i + 1]->Identifier_0, i + 2))
        } else {
            Err(ParseError::ExpectedTableName)
        }
    } else {
        Err(ParseError::ExpectedFrom)
    }
}

/// The grammar, applied to a whole token sequence. Tokens after the table
/// identifier are ignored.
pub open spec fn spec_parse(ts: Seq<TokenModel>) -> Result<SelectModel, ParseError> {
    if ts.len() == 0 || !(ts[0] is Select) {
        Err(ParseError::ExpectedSelect)
    } else {
        match spec_parse_list(ts) {
            Err(e) => Err(e),
            Ok((list, next)) => match spec_parse_from(ts, next) {
                Err(e) => Err(e),
                Ok((table, _)) => Ok(SelectModel { select_list: list, table }),
            },
        }
    }
}

/// Lexing followed by parsing, on a whole query string.
pub open spec fn spec_parse_query(s: Seq<char>) -> Result<SelectModel, ParseError> {
    match spec_lex(s) {
        Err(e) => Err(ParseError::Lex(e)),
        Ok(ts) => spec_parse(ts),
    }
}

/// Joins already-accumulated names with the result of parsing the remaining
/// items.
pub open spec fn items_join(
    pre: Seq<Seq<char>>,
    m: Result<(Seq<Seq<char>>, int), ParseError>,
) -> Result<(Seq<Seq<char>>, int), ParseError> {
    match m {
        Ok((names, next)) => Ok((pre + names, next)),
        Err(e) => Err(e),
    }
}

proof fn lemma_items_join_cons(
    pre: Seq<Seq<char>>,
    name: Seq<char>,
    m: Result<(Seq<Seq<char>>, int), ParseError>,
)
    ensures
        items_join(pre, match m {
            Ok((names, next)) => Ok((seq![name] + names, next)),
            Err(e) => Err(e),
        }) == items_join(pre.push(name), m),
{
    match m {
        Ok((names, _)) => {
            assert(pre + (seq![name] + names) =~= pre.push(name) + names);
        },
        Err(_) => {},
    }
}

fn parse_select_items(ts: &Vec<Token>) -> (r: Result<(Vec<SelectListItem>, usize), ParseError>)
    ensures
        (r is Ok) == (spec_parse_items(tokens_model(ts@), 1) is Ok),
        r matches Ok(p) ==> (spec_parse_items(tokens_model(ts@), 1) matches Ok(q)
            && items_model(p.0@) == q.0 && p.1 as int == q.1 && q.1 < ts@.len()),
        r matches Err(e) ==> spec_parse_items(tokens_model(ts@), 1) == Err::<
            (Seq<Seq<char>>, int),
            ParseError,
        >(e),
{
    let ghost m = tokens_model(ts@);
    let mut items: Vec<SelectListItem> = Vec::new();
    let mut i: usize = 1;
    loop
        invariant
            m == tokens_model(ts@),
            1 <= i,
            spec_parse_items(m, 1) == items_join(items_model(items@), spec_parse_items(m, i as int)),
        decreases m.len() - i,
    {
        if i >= ts.len() {
            return Err(ParseError::MissingFrom);
        }
        let ghost items0 = items@;
        let name = match &ts[i] {
            Token::Identifier(name) => name.clone(),
            _ => {
                return Err(ParseError::ExpectedIdentifier);
            },
        };
        proof {
            assert(m[i as int] == ts@[i as int]@);
        }
        items.push(SelectListItem { name });
        proof {
            lemma_items_model_push(items0, items@.last());
        }
        if i + 1 < ts.len() {
            match &ts[i + 1] {
                Token::Comma => {
                    proof {
                        lemma_items_join_cons(
                            items_model(items0),
                            m[i as int]->Identifier_0,
                            spec_parse_items(m, i + 2),
                        );
                    }
                    i = i + 2;
                },
                Token::From => {
                    proof {
                        assert(items_model(items@) =~= items_model(items0) + seq![
                            m[i as int]->Identifier_0,
                        ]);
                    }
                    return Ok((items, i + 1));
                },
                _ => {
                    return Err(ParseError::ExpectedCommaOrFrom);
                },
            }
        } else {
            return Err(ParseError::ExpectedCommaOrFrom);
        }
    }
}

fn parse_select_all(ts: &Vec<Token>) -> (r: Result<(SelectList, usize), ParseError>)
    requires
        tokens_model(ts@).len() > 1,
        tokens_model(ts@)[1] is Asterisk,
    ensures
        (r is Ok) == (spec_parse_list(tokens_model(ts@)) is Ok),
        r matches Ok(p) ==> (spec_parse_list(tokens_model(ts@)) matches Ok(q) && p.0@ == q.0
            && p.1 as int == q.1 && q.1 < ts@.len()),
        r matches Err(e) ==> spec_parse_list(tokens_model(ts@)) == Err::<
            (SelectListModel, int),
            ParseError,
        >(e),
{
    if ts.len() > 2 {
        match &ts[2] {
            Token::From => {
                proof {
                    assert(tokens_model(ts@)[2] == ts@[2]@);
                }
                return Ok((SelectList::All, 2));
            },
            _ => {
                proof {
                    assert(tokens_model(ts@)[2] == ts@[2]@);
                }
                return Err(ParseError::StarWithoutFrom);
            },
        }
    }
    Err(ParseError::StarWithoutFrom)
}

fn parse_select_list(ts: &Vec<Token>) -> (r: Result<(SelectList, usize), ParseError>)
    ensures
        (r is Ok) == (spec_parse_list(tokens_model(ts@)) is Ok),
        r matches Ok(p) ==> (spec_parse_list(tokens_model(ts@)) matches Ok(q) && p.0@ == q.0
            && p.1 as int == q.1 && q.1 < ts@.len()),
        r matches Err(e) ==> spec_parse_list(tokens_model(ts@)) == Err::<
            (SelectListModel, int),
            ParseError,
        >(e),
{
    if ts.len() <= 1 {
        return Err(ParseError::ExpectedSelectList);
    }
    proof {
        assert(tokens_model(ts@)[1] == ts@[1]@);
    }
    match &ts[1] {
        Token::Asterisk => parse_select_all(ts),
        Token::Identifier(_) => match parse_select_items(ts) {
            Ok((items, next)) => Ok((SelectList::Subset(items), next)),
            Err(e) => Err(e),
        },
        _ => Err(ParseError::ExpectedSelectList),
    }
}

fn parse_from(ts: &Vec<Token>, i: usize) -> (r: Result<FromClause, ParseError>)
    ensures
        (r is Ok) == (spec_parse_from(tokens_model(ts@), i as int) is Ok),
        r matches Ok(f) ==> (spec_parse_from(tokens_model(ts@), i as int) matches Ok(q) && f@
            == q.0),
        r matches Err(e) ==> spec_parse_from(tokens_model(ts@), i as int) == Err::<
            (Seq<char>, int),
            ParseError,
        >(e),
{
    if i >= ts.len() {
        return Err(ParseError::ExpectedFrom);
    }
    proof {
        assert(tokens_model(ts@)[i as int] == ts@[i as int]@);
    }
    match &ts[i] {
        Token::From => {},
        _ => {
            return Err(ParseError::ExpectedFrom);
        },
    }
    if i + 1 >= ts.len() {
        return Err(ParseError::ExpectedTableName);
    }
    proof {
        assert(tokens_model(ts@)[i + 1] == ts@[i + 1]@);
    }
    match &ts[i + 1] {
        Token::Identifier(name) => Ok(FromClause { table: name.clone() }),
        _ => Err(ParseError::ExpectedTableName),
    }
}

/// Lexes the input and parses the token sequence. Returns exactly what the
/// grammar rules (`spec_parse_query`) say: the same statement on success, the
/// same error on the same input otherwise.
pub fn parse(input: &str) -> (r: Result<Select, ParseError>)
    ensures
        (r is Ok) == (spec_parse_query(input@) is Ok),
        r matches Ok(sel) ==> (spec_parse_query(input@) matches Ok(m) && sel@ == m),
        r matches Err(e) ==> spec_parse_query(input@) == Err::<SelectModel, ParseError>(e),
{
    let ts = match lex(input) {
        Ok(ts) => ts,
        Err(e) => {
            return Err(ParseError::Lex(e));
        },
    };
    if ts.len() == 0 {
        return Err(ParseError::ExpectedSelect);
    }
    proof {
        assert(tokens_model(ts@)[0] == ts@[0]@);
    }
    match &ts[0] {
        Token::Select => {},
        _ => {
            return Err(ParseError::ExpectedSelect);
        },
    }
    let (select_list, next) = match parse_select_list(&ts) {
        Ok(p) => p,
        Err(e) => {
            return Err(e);
        },
    };
    let from = match parse_from(&ts, next) {
        Ok(f) => f,
        Err(e) => {
            return Err(e);
        },
    };
    Ok(Select { select_list, from })
}

} // verus!
