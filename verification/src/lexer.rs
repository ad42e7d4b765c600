use vstd::prelude::*;
use crate::error::Error;
use crate::text::{
    chars_to_string, index_of, is_space, lower_spec, lower_chars, string_chars, subvec,
    lemma_index_of_is, lemma_index_of_range,
};

verus! {

/// One token of the restricted `SELECT` grammar.
#[derive(Debug, PartialEq, Clone)]
pub enum Token {
    Select,
    From,
    Where,
    Identifier(String),
    Count,
    Equals,
    StringLiteral(String),
    Comma,
    Asterisk,
    EOF,
}

/// The mathematical model of a token.
pub enum TokenM {
    Select,
    From,
    Where,
    Identifier(Seq<char>),
    Count,
    Equals,
    StringLiteral(Seq<char>),
    Comma,
    Asterisk,
    EOF,
}

impl View for Token {
    type V = TokenM;

    open spec fn view(&self) -> TokenM {
        match self {
            Token::Select => TokenM::Select,
            Token::From => TokenM::From,
            Token::Where => TokenM::Where,
            Token::Identifier(s) => TokenM::Identifier(s@),
            Token::Count => TokenM::Count,
            Token::Equals => TokenM::Equals,
            Token::StringLiteral(s) => TokenM::StringLiteral(s@),
            Token::Comma => TokenM::Comma,
            Token::Asterisk => TokenM::Asterisk,
            Token::EOF => TokenM::EOF,
        }
    }
}

impl DeepView for Token {
    type V = TokenM;

    open spec fn deep_view(&self) -> TokenM {
        self.view()
    }
}

/// Whether `c` is an ASCII letter.
pub open spec fn is_alpha(c: char) -> bool {
    ('a' <= c && c <= 'z') || ('A' <= c && c <= 'Z')
}

/// The length of the identifier that starts `s`: characters up to the
/// first separator white space or comma.
pub open spec fn ident_len(s: Seq<char>) -> int
    decreases s.len(),
{
    if s.len() == 0 || is_space(s[0]) || s[0] == ',' {
        0
    } else {
        1 + ident_len(s.drop_first())
    }
}

/// `ident_len` stays within bounds, its characters are no separators, and
/// its end is one.
pub proof fn lemma_ident_len_range(s: Seq<char>)
    ensures
        0 <= ident_len(s) <= s.len(),
        forall|j: int| 0 <= j < ident_len(s) ==> !is_space(s[j]) && s[j] != ',',
        ident_len(s) < s.len() ==> is_space(s[ident_len(s)]) || s[ident_len(s)] == ',',
    decreases s.len(),
{
    if s.len() > 0 && !is_space(s[0]) && s[0] != ',' {
        lemma_ident_len_range(s.drop_first());
        assert forall|j: int| 0 <= j < ident_len(s) implies !is_space(s[j]) && s[j] != ',' by {
            if j > 0 {
                assert(s.drop_first()[j - 1] == s[j]);
            }
        }
    }
}

/// `ident_len` equals `k` when the first `k` characters are no separators
/// and the character at `k`, if any, is one.
pub proof fn lemma_ident_len_is(s: Seq<char>, k: int)
    requires
        0 <= k <= s.len(),
        forall|j: int| 0 <= j < k ==> !is_space(#[trigger] s[j]) && s[j] != ',',
        k < s.len() ==> is_space(s[k]) || s[k] == ',',
    ensures
        ident_len(s) == k,
    decreases s.len(),
{
    if s.len() > 0 && !is_space(s[0]) && s[0] != ',' {
        assert(k >= 1);
        assert forall|j: int| 0 <= j < k - 1 implies !is_space(#[trigger] s.drop_first()[j])
            && s.drop_first()[j] != ',' by {
            assert(s.drop_first()[j] == s[j + 1]);
        }
        lemma_ident_len_is(s.drop_first(), k - 1);
    }
}

/// The token an identifier word denotes: a keyword when it reads as one
/// regardless of ASCII case, otherwise the identifier itself.
pub open spec fn word_token(word: Seq<char>) -> TokenM {
    let low = lower_spec(word);
    if low == "select"@ {
        TokenM::Select
    } else if low == "from"@ {
        TokenM::From
    } else if low == "where"@ {
        TokenM::Where
    } else if low == "count(*)"@ {
        TokenM::Count
    } else {
        TokenM::Identifier(word)
    }
}

/// Prepend token `t` to a lexing result.
pub open spec fn lex_cons(t: TokenM, r: Option<Seq<TokenM>>) -> Option<Seq<TokenM>> {
    match r {
        None => None,
        Some(ts) => Some(seq![t] + ts),
    }
}

/// The tokens of `s`: white space separates tokens, a comma, an equals
/// sign and an asterisk stand alone, a single-quoted run is a string
/// literal, a word starting with an ASCII letter runs to the next white
/// space or comma and may be a keyword, and any other character is a
/// lexing error.  The token list always ends with an end marker.
pub open spec fn lex_spec(s: Seq<char>) -> Option<Seq<TokenM>>
    decreases s.len(),
    via lex_spec_decreases
{
    if s.len() == 0 {
        Some(seq![TokenM::EOF])
    } else {
        let c = s[0];
        if is_space(c) {
            lex_spec(s.drop_first())
        } else if c == ',' {
            lex_cons(TokenM::Comma, lex_spec(s.drop_first()))
        } else if c == '=' {
            lex_cons(TokenM::Equals, lex_spec(s.drop_first()))
        } else if c == '*' {
            lex_cons(TokenM::Asterisk, lex_spec(s.drop_first()))
        } else if c == '\'' {
            let rest = s.drop_first();
            let i = index_of(rest, '\'');
            let lit = rest.take(i);
            let after = if i < rest.len() {
                rest.skip(i + 1)
            } else {
                Seq::empty()
            };
            lex_cons(TokenM::StringLiteral(lit), lex_spec(after))
        } else if is_alpha(c) {
            let j = ident_len(s);
            lex_cons(word_token(s.take(j)), lex_spec(s.skip(j)))
        } else {
            None
        }
    }
}

#[via_fn]
proof fn lex_spec_decreases(s: Seq<char>) {
    if s.len() > 0 {
        let c = s[0];
        if c == '\'' {
            lemma_index_of_range(s.drop_first(), '\'');
        } else if !is_space(c) && c != ',' && c != '=' && c != '*' && is_alpha(c) {
            lemma_ident_len_range(s);
            assert(ident_len(s) >= 1);
        }
    }
}

/// Tokenise `input` under the restricted `SELECT` grammar.  Fails exactly
/// when a character that can start no token is met.
pub fn lexer(input: &str) -> (r: Result<Vec<Token>, Error>)
    ensures
        match r {
            Ok(tokens) => lex_spec(input@) == Some(tokens.deep_view()),
            Err(e) => lex_spec(input@) is None && e == Error::Syntax,
        },
{
    let cs = string_chars(input);
    let n = cs.len();
    let mut tokens: Vec<Token> = Vec::new();
    let mut p: usize = 0;
    proof {
        assert(cs@.skip(0) =~= cs@);
        assert(tokens.deep_view() =~= Seq::<TokenM>::empty());
        if lex_spec(cs@) is Some {
            assert(tokens.deep_view() + lex_spec(cs@)->Some_0 =~= lex_spec(cs@)->Some_0);
        }
    }
    while p < n
        invariant
            p <= n,
            n == cs@.len(),
            cs@ == input@,
            lex_spec(input@) == (match lex_spec(cs@.skip(p as int)) {
                None => None::<Seq<TokenM>>,
                Some(ts) => Some(tokens.deep_view() + ts),
            }),
        decreases n - p,
    {
        let ghost suff = cs@.skip(p as int);
        proof {
            assert(suff[0] == cs@[p as int]);
            assert(suff.drop_first() =~= cs@.skip(p + 1));
        }
        let c = cs[p];
        if c == ' ' || c == '\t' || c == '\n' || c == '\r' {
            p = p + 1;
        } else if c == ',' || c == '=' || c == '*' {
            let tok = if c == ',' {
                Token::Comma
            } else if c == '=' {
                Token::Equals
            } else {
                Token::Asterisk
            };
            let ghost prev = tokens.deep_view();
            tokens.push(tok);
            proof {
                assert(tokens.deep_view() =~~= prev.push(tok@));
                if lex_spec(cs@.skip(p + 1)) is Some {
                    assert((prev + (seq![tok@] + lex_spec(cs@.skip(p + 1))->Some_0)) =~= (
                    prev.push(tok@) + lex_spec(cs@.skip(p + 1))->Some_0));
                }
            }
            p = p + 1;
        } else if c == '\'' {
            // a string literal: characters up to the closing quote
            let mut q: usize = p + 1;
            while q < n && cs[q] != '\''
                invariant
                    p + 1 <= q <= n,
                    n == cs@.len(),
                    forall|j: int| p + 1 <= j < q ==> cs@[j] != '\'',
                decreases n - q,
            {
                q = q + 1;
            }
            let ghost rest = cs@.skip(p + 1);
            proof {
                assert forall|j: int| 0 <= j < q - (p + 1) implies rest[j] != '\'' by {
                    assert(rest[j] == cs@[p + 1 + j]);
                }
                if q < n {
                    assert(rest[q - (p + 1)] == cs@[q as int]);
                }
                lemma_index_of_is(rest, '\'', q - (p + 1));
            }
            let lit = subvec(&cs, p + 1, q);
            proof {
                assert(lit@ =~= rest.take(q - (p + 1)));
            }
            let tok = Token::StringLiteral(chars_to_string(&lit));
            let ghost prev = tokens.deep_view();
            tokens.push(tok);
            let next_p = if q < n {
                q + 1
            } else {
                n
            };
            proof {
                assert(tokens.deep_view() =~~= prev.push(TokenM::StringLiteral(lit@)));
                if q < n {
                    assert(rest.skip(q - (p + 1) + 1) =~= cs@.skip(next_p as int));
                } else {
                    assert(cs@.skip(next_p as int) =~= Seq::<char>::empty());
                }
                if lex_spec(cs@.skip(next_p as int)) is Some {
                    assert((prev + (seq![TokenM::StringLiteral(lit@)] + lex_spec(
                        cs@.skip(next_p as int),
                    )->Some_0)) =~= (prev.push(TokenM::StringLiteral(lit@)) + lex_spec(
                        cs@.skip(next_p as int),
                    )->Some_0));
                }
            }
            p = next_p;
        } else if (('a' <= c && c <= 'z') || ('A' <= c && c <= 'Z')) {
            // an identifier or keyword: up to white space or a comma
            let mut q: usize = p;
            while q < n && !(cs[q] == ' ' || cs[q] == '\t' || cs[q] == '\n' || cs[q] == '\r'
                || cs[q] == ',')
                invariant
                    p <= q <= n,
                    n == cs@.len(),
                    forall|j: int| p <= j < q ==> !is_space(#[trigger] cs@[j]) && cs@[j] != ',',
                decreases n - q,
            {
                q = q + 1;
            }
            proof {
                assert forall|j: int| 0 <= j < q - p implies !is_space(#[trigger] suff[j])
                    && suff[j] != ',' by {
                    assert(suff[j] == cs@[p + j]);
                }
                if q < n {
                    assert(suff[q - p] == cs@[q as int]);
                }
                lemma_ident_len_is(suff, q - p);
            }
            let word = subvec(&cs, p, q);
            proof {
                assert(word@ =~= suff.take(q - p));
            }
            let low = chars_to_string(&lower_chars(&word));
            let tok: Token = if low == "select".to_owned() {
                Token::Select
            } else if low == "from".to_owned() {
                Token::From
            } else if low == "where".to_owned() {
                Token::Where
            } else if low == "count(*)".to_owned() {
                Token::Count
            } else {
                Token::Identifier(chars_to_string(&word))
            };
            proof {
                assert(tok@ == word_token(suff.take(q - p)));
            }
            let ghost prev = tokens.deep_view();
            let ghost tokview = tok@;
            tokens.push(tok);
            proof {
                assert(tokens.deep_view() =~~= prev.push(tokview));
                assert(suff.skip(q - p) =~= cs@.skip(q as int));
                if lex_spec(cs@.skip(q as int)) is Some {
                    assert((prev + (seq![tokview] + lex_spec(cs@.skip(q as int))->Some_0)) =~= (
                    prev.push(tokview) + lex_spec(cs@.skip(q as int))->Some_0));
                }
            }
            p = q;
        } else {
            proof {
                assert(lex_spec(suff) is None);
            }
            return Err(Error::Syntax);
        }
    }
    let ghost prev = tokens.deep_view();
    tokens.push(Token::EOF);
    proof {
        assert(cs@.skip(n as int) =~= Seq::<char>::empty());
        assert(lex_spec(cs@.skip(n as int)) == Some(seq![TokenM::EOF]));
        assert(tokens.deep_view() =~~= prev.push(TokenM::EOF));
        assert(prev + seq![TokenM::EOF] =~= prev.push(TokenM::EOF));
    }
    Ok(tokens)
}

} // verus!
