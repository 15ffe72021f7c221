//! The tokens of a line.

use crate::text::{chars_of, slice_text};
use vstd::prelude::*;

verus! {

/// A token of the line grammar.
#[derive(Debug)]
pub enum Token {
    /// A name.
    Ident(String),
    /// `:`
    Colon,
    /// `->`
    Arrow,
    /// `=`
    Equals,
    /// `(`
    Open,
    /// `)`
    Close,
}

/// The mathematical value of a [`Token`].
pub enum TokenView {
    Ident(Seq<char>),
    Colon,
    Arrow,
    Equals,
    Open,
    Close,
}

impl View for Token {
    type V = TokenView;

    open spec fn view(&self) -> TokenView {
        match self {
            Token::Ident(s) => TokenView::Ident(s@),
            Token::Colon => TokenView::Colon,
            Token::Arrow => TokenView::Arrow,
            Token::Equals => TokenView::Equals,
            Token::Open => TokenView::Open,
            Token::Close => TokenView::Close,
        }
    }
}

/// The values of a sequence of tokens, element by element.
pub open spec fn token_views(s: Seq<Token>) -> Seq<TokenView> {
    Seq::new(s.len(), |i: int| s[i]@)
}

/// Why a line is not a line of the grammar.
#[derive(Clone, Copy, Debug, PartialEq, Eq, Structural)]
pub enum LineError {
    /// The character at this position begins no token.
    UnexpectedChar { at: usize },
    /// The token at this position cannot stand there.
    UnexpectedToken { at: usize },
    /// The line ends where more must follow.
    UnexpectedEnd,
    /// A binder `(x: A)` stands where no arrow follows it.
    BinderWithoutArrow { at: usize },
}

/// Whether `c` separates tokens.
pub open spec fn is_space(c: char) -> bool {
    c == ' ' || c == '\t' || c == '\r'
}

/// Whether `c` can stand in a name: a letter, a digit, `_` or `'`.
pub open spec fn is_name_char(c: char) -> bool {
    ('a' <= c && c <= 'z') || ('A' <= c && c <= 'Z') || ('0' <= c && c <= '9') || c == '_' || c
        == '\''
}

/// The number of name characters in `s` from `from` on, up to the first
/// character that is none.
pub open spec fn name_len(s: Seq<char>, from: nat) -> nat
    decreases s.len() - from,
{
    if from < s.len() && is_name_char(s[from as int]) {
        1 + name_len(s, from + 1)
    } else {
        0
    }
}

/// How many positions of a sequence of length `len` lie at or after
/// `pos`.
pub open spec fn room(len: nat, pos: nat) -> nat {
    if pos < len {
        (len - pos) as nat
    } else {
        0
    }
}

/// `t` in front of the tokens that follow it.
pub open spec fn cons(t: TokenView, rest: Result<Seq<TokenView>, LineError>) -> Result<
    Seq<TokenView>,
    LineError,
> {
    match rest {
        Ok(ts) => Ok(seq![t] + ts),
        Err(x) => Err(x),
    }
}

/// The tokens of `s` from `from` on. Spaces separate tokens; a name is the
/// longest run of name characters.
pub open spec fn lex_spec(s: Seq<char>, from: nat) -> Result<Seq<TokenView>, LineError>
    decreases room(s.len(), from),
{
    if from >= s.len() {
        Ok(Seq::empty())
    } else {
        let c = s[from as int];
        if is_space(c) {
            lex_spec(s, from + 1)
        } else if c == '(' {
            cons(TokenView::Open, lex_spec(s, from + 1))
        } else if c == ')' {
            cons(TokenView::Close, lex_spec(s, from + 1))
        } else if c == ':' {
            cons(TokenView::Colon, lex_spec(s, from + 1))
        } else if c == '=' {
            cons(TokenView::Equals, lex_spec(s, from + 1))
        } else if c == '-' {
            if from + 1 < s.len() && s[from as int + 1] == '>' {
                cons(TokenView::Arrow, lex_spec(s, from + 2))
            } else {
                Err(LineError::UnexpectedChar { at: from as usize })
            }
        } else if is_name_char(c) {
            let n = 1 + name_len(s, from + 1);
            cons(
                TokenView::Ident(s.subrange(from as int, (from + n) as int)),
                lex_spec(s, from + n),
            )
        } else {
            Err(LineError::UnexpectedChar { at: from as usize })
        }
    }
}

/// `acc` in front of the tokens that follow.
pub open spec fn after(acc: Seq<TokenView>, rest: Result<Seq<TokenView>, LineError>) -> Result<
    Seq<TokenView>,
    LineError,
> {
    match rest {
        Ok(ts) => Ok(acc + ts),
        Err(x) => Err(x),
    }
}

/// The value of a result that carries tokens.
pub open spec fn tokens_view(r: Result<Vec<Token>, LineError>) -> Result<
    Seq<TokenView>,
    LineError,
> {
    match r {
        Ok(v) => Ok(token_views(v@)),
        Err(x) => Err(x),
    }
}

/// Whether every name among `ts` has a character.
pub open spec fn names_nonempty(ts: Seq<TokenView>) -> bool {
    forall|k: int| 0 <= k < ts.len() ==> ((#[trigger] ts[k]) matches TokenView::Ident(n) ==> n.len() > 0)
}

/// A run of name characters ends within the text.
pub proof fn lemma_name_len_bound(s: Seq<char>, from: nat)
    ensures
        name_len(s, from) <= room(s.len(), from),
    decreases s.len() - from,
{
    if from < s.len() && is_name_char(s[from as int]) {
        lemma_name_len_bound(s, from + 1);
    }
}

/// Every name that the lexer gives has a character.
pub proof fn lemma_lex_names(s: Seq<char>, from: nat)
    requires
        lex_spec(s, from) is Ok,
    ensures
        names_nonempty(lex_spec(s, from)->Ok_0),
    decreases room(s.len(), from),
{
    if from < s.len() {
        let c = s[from as int];
        let ts = lex_spec(s, from)->Ok_0;
        if is_space(c) {
            lemma_lex_names(s, from + 1);
        } else {
            let n: nat = if c == '-' {
                2
            } else if c == '(' || c == ')' || c == ':' || c == '=' {
                1
            } else {
                1 + name_len(s, from + 1)
            };
            lemma_name_len_bound(s, from + 1);
            lemma_lex_names(s, from + n);
            let rest = lex_spec(s, from + n)->Ok_0;
            assert forall|k: int| 0 <= k < ts.len() implies ((#[trigger] ts[k]) matches TokenView::Ident(
                name,
            ) ==> name.len() > 0) by {
                if k > 0 {
                    assert(ts[k] == rest[k - 1]);
                }
            }
        }
    }
}

fn name_char(c: char) -> (r: bool)
    ensures
        r == is_name_char(c),
{
    (c >= 'a' && c <= 'z') || (c >= 'A' && c <= 'Z') || (c >= '0' && c <= '9') || c == '_' || c
        == '\''
}

/// Splits a line into tokens.
pub fn lex(line: &str) -> (res: Result<Vec<Token>, LineError>)
    ensures
        tokens_view(res) == lex_spec(line@, 0),
{
    let chars = chars_of(line);
    let n = chars.len();
    let ghost s = line@;
    let ghost goal = lex_spec(s, 0);
    let mut out: Vec<Token> = Vec::new();
    let mut i: usize = 0;
    assert(token_views(out@) =~= Seq::<TokenView>::empty());
    assert(after(Seq::empty(), goal) == goal) by {
        if goal is Ok {
            assert(Seq::<TokenView>::empty() + goal->Ok_0 =~= goal->Ok_0);
        }
    }
    while i < n
        invariant
            i <= n,
            n == chars.len(),
            chars@ == s,
            s == line@,
            goal == lex_spec(s, 0),
            goal == after(token_views(out@), lex_spec(s, i as nat)),
        decreases n - i,
    {
        let c = chars[i];
        let ghost acc = token_views(out@);
        let ghost rest_here = lex_spec(s, i as nat);
        if c == ' ' || c == '\t' || c == '\r' {
            i += 1;
        } else if c == '(' || c == ')' || c == ':' || c == '=' {
            let t = if c == '(' {
                Token::Open
            } else if c == ')' {
                Token::Close
            } else if c == ':' {
                Token::Colon
            } else {
                Token::Equals
            };
            let ghost tv = t@;
            out.push(t);
            i += 1;
            proof {
                let rest = lex_spec(s, i as nat);
                assert(token_views(out@) =~= acc.push(tv));
                assert(rest_here == cons(tv, rest));
                if rest is Ok {
                    assert(acc + (seq![tv] + rest->Ok_0) =~= acc.push(tv) + rest->Ok_0);
                }
            }
        } else if c == '-' {
            if i + 1 < n && chars[i + 1] == '>' {
                out.push(Token::Arrow);
                i += 2;
                proof {
                    let rest = lex_spec(s, i as nat);
                    assert(token_views(out@) =~= acc.push(TokenView::Arrow));
                    assert(rest_here == cons(TokenView::Arrow, rest));
                    if rest is Ok {
                        assert(acc + (seq![TokenView::Arrow] + rest->Ok_0) =~= acc.push(
                            TokenView::Arrow,
                        ) + rest->Ok_0);
                    }
                }
            } else {
                return Err(LineError::UnexpectedChar { at: i });
            }
        } else if name_char(c) {
            let start: usize = i;
            i += 1;
            while i < n && name_char(chars[i])
                invariant
                    start < i <= n,
                    n == chars.len(),
                    chars@ == s,
                    name_len(s, (start + 1) as nat) == (i - start - 1) + name_len(s, i as nat),
                decreases n - i,
            {
                i += 1;
            }
            let name = slice_text(line, start, i);
            let ghost tv = TokenView::Ident(name@);
            out.push(Token::Ident(name));
            proof {
                let rest = lex_spec(s, i as nat);
                assert(name_len(s, i as nat) == 0);
                assert(token_views(out@) =~= acc.push(tv));
                assert(rest_here == cons(tv, rest));
                if rest is Ok {
                    assert(acc + (seq![tv] + rest->Ok_0) =~= acc.push(tv) + rest->Ok_0);
                }
            }
        } else {
            return Err(LineError::UnexpectedChar { at: i });
        }
    }
    proof {
        assert(token_views(out@) + Seq::<TokenView>::empty() =~= token_views(out@));
    }
    Ok(out)
}

} // verus!
