use vstd::prelude::*;
use crate::error::Error;
use crate::lexer::{Token, TokenM, lex_spec, lexer};

verus! {

/// One entry of a `SELECT` column list.
#[derive(Debug, PartialEq)]
pub enum Column {
    All,
    Regular(String),
    Aggregation(AggregateFn),
}

/// The aggregate functions the grammar admits.
#[derive(Clone, Copy, Debug, PartialEq, Eq, Structural)]
pub enum AggregateFn {
    CountAll,
}

/// The comparison operators the grammar admits.
#[derive(Clone, Copy, Debug, PartialEq, Eq, Structural)]
pub enum Operator {
    Equals,
}

/// The mathematical model of a column-list entry.
pub enum ColumnM {
    All,
    Regular(Seq<char>),
    Aggregation(AggregateFn),
}

impl View for Column {
    type V = ColumnM;

    open spec fn view(&self) -> ColumnM {
        match self {
            Column::All => ColumnM::All,
            Column::Regular(s) => ColumnM::Regular(s@),
            Column::Aggregation(f) => ColumnM::Aggregation(*f),
        }
    }
}

impl DeepView for Column {
    type V = ColumnM;

    open spec fn deep_view(&self) -> ColumnM {
        self.view()
    }
}

/// A `WHERE` clause: one column compared for equality against a string
/// literal.
#[derive(Debug, PartialEq)]
pub struct Comparison {
    pub operator: Operator,
    pub column: String,
    pub value: String,
}

/// The mathematical model of a comparison.
pub struct ComparisonM {
    pub operator: Operator,
    pub column: Seq<char>,
    pub value: Seq<char>,
}

impl View for Comparison {
    type V = ComparisonM;

    open spec fn view(&self) -> ComparisonM {
        ComparisonM { operator: self.operator, column: self.column@, value: self.value@ }
    }
}

/// A parsed `SELECT` statement.
#[derive(Debug)]
pub struct SelectQuery {
    pub columns: Vec<Column>,
    pub table: String,
    pub where_clause: Option<Comparison>,
}

/// The mathematical model of a parsed `SELECT` statement.
pub struct SelectQueryM {
    pub columns: Seq<ColumnM>,
    pub table: Seq<char>,
    pub where_clause: Option<ComparisonM>,
}

impl View for SelectQuery {
    type V = SelectQueryM;

    open spec fn view(&self) -> SelectQueryM {
        SelectQueryM {
            columns: Seq::new(self.columns@.len(), |i: int| self.columns@[i]@),
            table: self.table@,
            where_clause: match self.where_clause {
                None => None,
                Some(c) => Some(c@),
            },
        }
    }
}

/// The column named by the token at `pos`, if it can start a column-list
/// entry.
pub open spec fn column_at(ts: Seq<TokenM>, pos: int) -> Option<ColumnM> {
    if 0 <= pos < ts.len() {
        match ts[pos] {
            TokenM::Count => Some(ColumnM::Aggregation(AggregateFn::CountAll)),
            TokenM::Asterisk => Some(ColumnM::All),
            TokenM::Identifier(s) => Some(ColumnM::Regular(s)),
            _ => None,
        }
    } else {
        None
    }
}

/// The comma-separated column list read from `ts` at `pos`, and the
/// position just past it.
pub open spec fn parse_columns_spec(ts: Seq<TokenM>, pos: int) -> Option<(Seq<ColumnM>, int)>
    decreases ts.len() - pos,
{
    match column_at(ts, pos) {
        None => None,
        Some(c) => if pos + 1 < ts.len() && ts[pos + 1] == TokenM::Comma {
            match parse_columns_spec(ts, pos + 2) {
                None => None,
                Some((cols, p)) => Some((seq![c] + cols, p)),
            }
        } else {
            Some((seq![c], pos + 1))
        },
    }
}

/// The comparison read from `ts` at `pos`: an identifier, an equals sign,
/// then a string literal; and the position just past it.
pub open spec fn parse_where_spec(ts: Seq<TokenM>, pos: int) -> Option<(ComparisonM, int)> {
    if 0 <= pos && pos + 2 < ts.len() {
        match (ts[pos], ts[pos + 1], ts[pos + 2]) {
            (TokenM::Identifier(col), TokenM::Equals, TokenM::StringLiteral(v)) => Some(
                (ComparisonM { operator: Operator::Equals, column: col, value: v }, pos + 3),
            ),
            _ => None,
        }
    } else {
        None
    }
}

/// The `SELECT` statement read from `ts` starting at `pos`: the `SELECT`
/// keyword, a column list, `FROM`, a table name, and an optional `WHERE`
/// comparison.  Tokens past the statement are ignored.
pub open spec fn parse_from_spec(ts: Seq<TokenM>, pos: int) -> Option<SelectQueryM> {
    if !(0 <= pos < ts.len() && ts[pos] == TokenM::Select) {
        None
    } else {
        match parse_columns_spec(ts, pos + 1) {
            None => None,
            Some((cols, p)) => if !(p < ts.len() && ts[p] == TokenM::From) {
                None
            } else if !(p + 1 < ts.len() && ts[p + 1] is Identifier) {
                None
            } else {
                let table = ts[p + 1]->Identifier_0;
                let q = p + 2;
                if q < ts.len() && ts[q] == TokenM::Where {
                    match parse_where_spec(ts, q + 1) {
                        None => None,
                        Some((cmp, _)) => Some(
                            SelectQueryM { columns: cols, table, where_clause: Some(cmp) },
                        ),
                    }
                } else {
                    Some(SelectQueryM { columns: cols, table, where_clause: None })
                }
            },
        }
    }
}

/// The `SELECT` statement read from the whole token list.
pub open spec fn parse_spec(ts: Seq<TokenM>) -> Option<SelectQueryM> {
    parse_from_spec(ts, 0)
}

/// A copy of `t` with the same view.
fn dup_token(t: &Token) -> (r: Token)
    ensures
        r@ == t@,
{
    match t {
        Token::Select => Token::Select,
        Token::From => Token::From,
        Token::Where => Token::Where,
        Token::Identifier(s) => Token::Identifier(s.clone()),
        Token::Count => Token::Count,
        Token::Equals => Token::Equals,
        Token::StringLiteral(s) => Token::StringLiteral(s.clone()),
        Token::Comma => Token::Comma,
        Token::Asterisk => Token::Asterisk,
        Token::EOF => Token::EOF,
    }
}

/// Whether `a` and `b` are the same token with the same text.
fn token_eq(a: &Token, b: &Token) -> (r: bool)
    ensures
        r == (a@ == b@),
{
    let ka = token_kind(a);
    let kb = token_kind(b);
    if ka != kb {
        return false;
    }
    let payload_eq = match (a, b) {
        (Token::Identifier(x), Token::Identifier(y)) => *x == *y,
        (Token::StringLiteral(x), Token::StringLiteral(y)) => *x == *y,
        _ => true,
    };
    proof {
        lemma_tokenm_cases(a@);
        lemma_tokenm_cases(b@);
    }
    payload_eq
}

/// Every token model equals the canonical value of its variant.
proof fn lemma_tokenm_cases(x: TokenM)
    ensures
        x is Select ==> x == TokenM::Select,
        x is From ==> x == TokenM::From,
        x is Where ==> x == TokenM::Where,
        x is Count ==> x == TokenM::Count,
        x is Equals ==> x == TokenM::Equals,
        x is Comma ==> x == TokenM::Comma,
        x is Asterisk ==> x == TokenM::Asterisk,
        x is EOF ==> x == TokenM::EOF,
        x is Identifier ==> x == TokenM::Identifier(x->Identifier_0),
        x is StringLiteral ==> x == TokenM::StringLiteral(x->StringLiteral_0),
{
    match x {
        TokenM::Select => {},
        TokenM::From => {},
        TokenM::Where => {},
        TokenM::Identifier(_) => {},
        TokenM::Count => {},
        TokenM::Equals => {},
        TokenM::StringLiteral(_) => {},
        TokenM::Comma => {},
        TokenM::Asterisk => {},
        TokenM::EOF => {},
    }
}

/// A small number naming the variant of `t`, used to compare tokens.
fn token_kind(t: &Token) -> (r: u8)
    ensures
        t@ is Select <==> r == 0,
        t@ is From <==> r == 1,
        t@ is Where <==> r == 2,
        t@ is Identifier <==> r == 3,
        t@ is Count <==> r == 4,
        t@ is Equals <==> r == 5,
        t@ is StringLiteral <==> r == 6,
        t@ is Comma <==> r == 7,
        t@ is Asterisk <==> r == 8,
        t@ is EOF <==> r == 9,
{
    match t {
        Token::Select => 0,
        Token::From => 1,
        Token::Where => 2,
        Token::Identifier(_) => 3,
        Token::Count => 4,
        Token::Equals => 5,
        Token::StringLiteral(_) => 6,
        Token::Comma => 7,
        Token::Asterisk => 8,
        Token::EOF => 9,
    }
}

/// A recursive-descent parser over a token list.
#[derive(Debug)]
pub struct Parser {
    tokens: Vec<Token>,
    position: usize,
}

/// The mathematical model of a parser: its tokens and its position.
pub struct ParserM {
    pub tokens: Seq<TokenM>,
    pub position: int,
}

impl View for Parser {
    type V = ParserM;

    closed spec fn view(&self) -> ParserM {
        ParserM { tokens: self.tokens.deep_view(), position: self.position as int }
    }
}

impl Parser {
    /// A parser positioned at the start of `tokens`.
    pub fn new(tokens: Vec<Token>) -> (r: Parser)
        ensures
            r@.tokens == tokens.deep_view(),
            r@.position == 0,
    {
        Self { tokens, position: 0 }
    }

    /// Whether the current token equals `token`.
    pub fn matches(&self, token: &Token) -> (r: bool)
        ensures
            r == (self@.position < self@.tokens.len() && self@.tokens[self@.position] == token@),
    {
        if self.position >= self.tokens.len() {
            return false;
        }
        let r = token_eq(&self.tokens[self.position], token);
        proof {
            assert(self@.tokens[self@.position] == self.tokens@[self.position as int]@);
        }
        r
    }

    /// Step past the current token when it equals `token`, and fail
    /// otherwise.
    pub fn consume(&mut self, token: &Token) -> (r: Result<(), Error>)
        ensures
            final(self)@.tokens == old(self)@.tokens,
            match r {
                Ok(()) => {
                    &&& old(self)@.position < old(self)@.tokens.len()
                    &&& old(self)@.tokens[old(self)@.position] == token@
                    &&& final(self)@.position == old(self)@.position + 1
                },
                Err(e) => {
                    &&& !(old(self)@.position < old(self)@.tokens.len() && old(
                        self,
                    )@.tokens[old(self)@.position] == token@)
                    &&& final(self)@.position == old(self)@.position
                    &&& e == Error::Syntax
                },
            },
    {
        if self.position < self.tokens.len() {
            let eq = token_eq(&self.tokens[self.position], token);
            proof {
                assert(self@.tokens[self@.position] == self.tokens@[self.position as int]@);
            }
            if eq {
                self.position = self.position + 1;
                return Ok(());
            }
        }
        Err(Error::Syntax)
    }

    /// Return the current token and step past it; fail at the end of the
    /// token list.
    pub fn advance(&mut self) -> (r: Result<Token, Error>)
        ensures
            final(self)@.tokens == old(self)@.tokens,
            match r {
                Ok(t) => {
                    &&& old(self)@.position < old(self)@.tokens.len()
                    &&& t@ == old(self)@.tokens[old(self)@.position]
                    &&& final(self)@.position == old(self)@.position + 1
                },
                Err(e) => {
                    &&& old(self)@.position >= old(self)@.tokens.len()
                    &&& final(self)@.position == old(self)@.position
                    &&& e == Error::Syntax
                },
            },
    {
        if self.position >= self.tokens.len() {
            return Err(Error::Syntax);
        }
        let t = dup_token(&self.tokens[self.position]);
        proof {
            assert(self@.tokens[self@.position] == self.tokens@[self.position as int]@);
        }
        self.position = self.position + 1;
        Ok(t)
    }

    /// Read one identifier token; fail on any other token.
    fn parse_identifier(&mut self) -> (r: Result<String, Error>)
        ensures
            final(self)@.tokens == old(self)@.tokens,
            match r {
                Ok(s) => {
                    &&& old(self)@.position < old(self)@.tokens.len()
                    &&& old(self)@.tokens[old(self)@.position] == TokenM::Identifier(s@)
                    &&& final(self)@.position == old(self)@.position + 1
                },
                Err(e) => {
                    &&& !(old(self)@.position < old(self)@.tokens.len() && old(
                        self,
                    )@.tokens[old(self)@.position] is Identifier)
                    &&& e == Error::Syntax
                },
            },
    {
        let t = match self.advance() {
            Ok(t) => t,
            Err(e) => {
                return Err(e);
            },
        };
        match t {
            Token::Identifier(name) => Ok(name),
            _ => Err(Error::Syntax),
        }
    }

    /// Read the comma-separated column list at the current position.
    fn parse_columns(&mut self) -> (r: Result<Vec<Column>, Error>)
        ensures
            final(self)@.tokens == old(self)@.tokens,
            match r {
                Ok(cols) => parse_columns_spec(old(self)@.tokens, old(self)@.position) == Some(
                    (cols.deep_view(), final(self)@.position),
                ),
                Err(e) => parse_columns_spec(old(self)@.tokens, old(self)@.position) is None && e
                    == Error::Syntax,
            },
    {
        let ghost ts = self@.tokens;
        let ghost pos0 = self@.position;
        if self.position >= self.tokens.len() {
            proof {
                assert(self@.tokens.len() == self.tokens@.len());
            }
            return Err(Error::Syntax);
        }
        let mut columns: Vec<Column> = Vec::new();
        proof {
            assert(columns.deep_view() =~= Seq::<ColumnM>::empty());
            if parse_columns_spec(ts, pos0) is Some {
                assert(columns.deep_view() + parse_columns_spec(ts, pos0)->Some_0.0
                    =~= parse_columns_spec(ts, pos0)->Some_0.0);
            }
        }
        loop
            invariant
                ts == old(self)@.tokens,
                pos0 == old(self)@.position,
                self@.tokens == ts,
                pos0 <= self@.position <= ts.len(),
                parse_columns_spec(ts, pos0) == (match parse_columns_spec(ts, self@.position) {
                    None => None::<(Seq<ColumnM>, int)>,
                    Some((cols, p)) => Some((columns.deep_view() + cols, p)),
                }),
            decreases ts.len() - self@.position,
        {
            let ghost cur = self@.position;
            let col: Column = if self.matches(&Token::Count) {
                let _ = self.consume(&Token::Count);
                Column::Aggregation(AggregateFn::CountAll)
            } else if self.matches(&Token::Asterisk) {
                let _ = self.consume(&Token::Asterisk);
                Column::All
            } else {
                match self.parse_identifier() {
                    Ok(name) => Column::Regular(name),
                    Err(e) => {
                        proof {
                            assert(column_at(ts, cur) is None);
                        }
                        return Err(e);
                    },
                }
            };
            proof {
                assert(column_at(ts, cur) == Some(col@));
            }
            let ghost prev = columns.deep_view();
            columns.push(col);
            proof {
                assert(columns.deep_view() =~~= prev.push(col@));
            }
            if !self.matches(&Token::Comma) {
                proof {
                    assert(parse_columns_spec(ts, cur) == Some(
                        (seq![col@], cur + 1),
                    ));
                    assert(prev + seq![col@] =~= prev.push(col@));
                }
                return Ok(columns);
            }
            let _ = self.consume(&Token::Comma);
            proof {
                match parse_columns_spec(ts, cur + 2) {
                    None => {
                        assert(parse_columns_spec(ts, cur) is None);
                    },
                    Some((cols, p)) => {
                        assert(parse_columns_spec(ts, cur) == Some((seq![col@] + cols, p)));
                        assert((prev + (seq![col@] + cols)) =~= (prev.push(col@) + cols));
                    },
                }
            }
        }
    }

    /// Read the comparison of a `WHERE` clause at the current position.
    fn parse_where_clause(&mut self) -> (r: Result<Comparison, Error>)
        ensures
            final(self)@.tokens == old(self)@.tokens,
            match r {
                Ok(cmp) => parse_where_spec(old(self)@.tokens, old(self)@.position) == Some(
                    (cmp@, final(self)@.position),
                ),
                Err(e) => parse_where_spec(old(self)@.tokens, old(self)@.position) is None && e
                    == Error::Syntax,
            },
    {
        let left = match self.parse_identifier() {
            Ok(s) => s,
            Err(e) => {
                return Err(e);
            },
        };
        match self.consume(&Token::Equals) {
            Ok(()) => {},
            Err(e) => {
                return Err(e);
            },
        }
        let t = match self.advance() {
            Ok(t) => t,
            Err(e) => {
                return Err(e);
            },
        };
        let right = match t {
            Token::StringLiteral(v) => v,
            _ => {
                return Err(Error::Syntax);
            },
        };
        Ok(Comparison { operator: Operator::Equals, column: left, value: right })
    }

    /// Parse one `SELECT` statement from the current position; tokens past
    /// the statement are left unread.
    pub fn parse(&mut self) -> (r: Result<SelectQuery, Error>)
        ensures
            match r {
                Ok(q) => parse_from_spec(old(self)@.tokens, old(self)@.position) == Some(q@),
                Err(e) => parse_from_spec(old(self)@.tokens, old(self)@.position) is None && e
                    == Error::Syntax,
            },
    {
        let ghost ts = self@.tokens;
        let ghost pos0 = self@.position;
        match self.consume(&Token::Select) {
            Ok(()) => {},
            Err(e) => {
                return Err(e);
            },
        }
        let columns = match self.parse_columns() {
            Ok(v) => v,
            Err(e) => {
                return Err(e);
            },
        };
        match self.consume(&Token::From) {
            Ok(()) => {},
            Err(e) => {
                return Err(e);
            },
        }
        let table = match self.parse_identifier() {
            Ok(v) => v,
            Err(e) => {
                return Err(e);
            },
        };
        let where_clause: Option<Comparison> = if self.matches(&Token::Where) {
            match self.consume(&Token::Where) {
                Ok(()) => {},
                Err(e) => {
                    return Err(e);
                },
            }
            match self.parse_where_clause() {
                Ok(c) => Some(c),
                Err(e) => {
                    return Err(e);
                },
            }
        } else {
            None
        };
        let q = SelectQuery { columns, table, where_clause };
        proof {
            assert(q@.columns =~= parse_columns_spec(ts, pos0 + 1)->Some_0.0);
        }
        Ok(q)
    }
}

/// Tokenise and parse `query` as one `SELECT` statement.
pub fn parse_sql(query: &str) -> (r: Result<SelectQuery, Error>)
    ensures
        match r {
            Ok(q) => {
                &&& lex_spec(query@) is Some
                &&& parse_spec(lex_spec(query@)->Some_0) == Some(q@)
            },
            Err(e) => {
                &&& (lex_spec(query@) is None || parse_spec(lex_spec(query@)->Some_0) is None)
                &&& e == Error::Syntax
            },
        },
{
    let tokens = match lexer(query) {
        Ok(v) => v,
        Err(e) => {
            return Err(e);
        },
    };
    let mut parser = Parser::new(tokens);
    parser.parse()
}

} // verus!
