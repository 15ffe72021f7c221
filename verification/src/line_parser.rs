//! The grammar of a line.
//!
//! ```text
//! line   := NAME ':' expr  |  NAME NAME* '=' expr
//! expr   := piece ('->' piece)*
//! piece  := '(' NAME ':' expr ')'  |  '(' expr ')'  |  NAME atom*
//! atom   := NAME  |  '(' expr ')'
//! ```
//!
//! In a chain of arrows every piece but the last is a binder domain, named
//! where it is written `(x: A)`; the last piece is what the chain leads to
//! and cannot be of that form.

use crate::ast;
use crate::context::texts;
use crate::lexer::{
    lemma_lex_names, lex, lex_spec, names_nonempty, room, token_views, LineError, Token,
    TokenView,
};
use vstd::prelude::*;

verus! {

broadcast use crate::ast::lemma_view;

/// A piece of a chain of arrows: a named binder, or an expression.
pub enum Piece {
    Binder(String, ast::Expr),
    Plain(ast::Expr),
}

/// The mathematical value of a [`Piece`].
pub enum PieceView {
    Binder { name: Seq<char>, ty: ast::ExprView },
    Plain { e: ast::ExprView },
}

impl View for Piece {
    type V = PieceView;

    open spec fn view(&self) -> PieceView {
        match self {
            Piece::Binder(name, ty) => PieceView::Binder { name: name@, ty: ty@ },
            Piece::Plain(e) => PieceView::Plain { e: e@ },
        }
    }
}

/// The error for a token that cannot stand at `pos`, or for the end of
/// the line there.
pub open spec fn stray(ts: Seq<TokenView>, pos: nat) -> LineError {
    if pos < ts.len() {
        LineError::UnexpectedToken { at: pos as usize }
    } else {
        LineError::UnexpectedEnd
    }
}

/// A piece as a binder of a chain.
pub open spec fn as_param(p: PieceView) -> (Option<Seq<char>>, ast::ExprView) {
    match p {
        PieceView::Binder { name, ty } => (Some(name), ty),
        PieceView::Plain { e } => (None, e),
    }
}

/// A name without arguments.
pub open spec fn bare(name: Seq<char>) -> ast::ExprView {
    ast::ExprView::Alg { head: name, tail: Seq::empty() }
}

/// What a chain with the binders `params` that ends in `e` stands for.
pub open spec fn chained(
    params: Seq<(Option<Seq<char>>, ast::ExprView)>,
    e: ast::ExprView,
) -> ast::ExprView {
    if params.len() == 0 {
        e
    } else {
        ast::ExprView::Arrow { params, output: Box::new(e) }
    }
}

/// The expression that begins at `pos`, and the number of tokens it takes.
pub open spec fn expr_spec(ts: Seq<TokenView>, pos: nat) -> Result<(ast::ExprView, nat), LineError>
    decreases room(ts.len(), pos), 3nat,
{
    chain_spec(ts, pos, Seq::empty())
}

/// The rest of a chain of arrows from `pos` on, of which the binders
/// `params` are already read.
pub open spec fn chain_spec(
    ts: Seq<TokenView>,
    pos: nat,
    params: Seq<(Option<Seq<char>>, ast::ExprView)>,
) -> Result<(ast::ExprView, nat), LineError>
    decreases room(ts.len(), pos), 2nat,
{
    match piece_spec(ts, pos) {
        Err(x) => Err(x),
        Ok(r) => {
            let next = pos + 1 + r.1;
            if next < ts.len() && ts[next as int] is Arrow {
                match chain_spec(ts, next + 1, params.push(as_param(r.0))) {
                    Err(x) => Err(x),
                    Ok(done) => Ok((done.0, done.1 + r.1 + 2)),
                }
            } else {
                match r.0 {
                    PieceView::Binder { .. } => Err(
                        LineError::BinderWithoutArrow { at: pos as usize },
                    ),
                    PieceView::Plain { e } => Ok((chained(params, e), r.1 + 1)),
                }
            }
        },
    }
}

/// The piece that begins at `pos`, and the number of tokens it takes
/// after its first.
pub open spec fn piece_spec(ts: Seq<TokenView>, pos: nat) -> Result<(PieceView, nat), LineError>
    decreases room(ts.len(), pos), 1nat,
{
    if pos >= ts.len() {
        Err(LineError::UnexpectedEnd)
    } else {
        match ts[pos as int] {
            TokenView::Ident(h) => match atoms_spec(ts, pos + 1) {
                Err(x) => Err(x),
                Ok(r) => Ok(
                    (PieceView::Plain { e: ast::ExprView::Alg { head: h, tail: r.0 } }, r.1),
                ),
            },
            TokenView::Open => if pos + 2 < ts.len() && ts[pos as int + 1] is Ident && ts[pos as int
                + 2] is Colon {
                match expr_spec(ts, pos + 3) {
                    Err(x) => Err(x),
                    Ok(r) => {
                        let end = pos + 3 + r.1;
                        if end < ts.len() && ts[end as int] is Close {
                            Ok(
                                (
                                    PieceView::Binder {
                                        name: ts[pos as int + 1]->Ident_0,
                                        ty: r.0,
                                    },
                                    r.1 + 3,
                                ),
                            )
                        } else {
                            Err(stray(ts, end))
                        }
                    },
                }
            } else {
                match expr_spec(ts, pos + 1) {
                    Err(x) => Err(x),
                    Ok(r) => {
                        let end = pos + 1 + r.1;
                        if end < ts.len() && ts[end as int] is Close {
                            Ok((PieceView::Plain { e: r.0 }, r.1 + 1))
                        } else {
                            Err(stray(ts, end))
                        }
                    },
                }
            },
            _ => Err(LineError::UnexpectedToken { at: pos as usize }),
        }
    }
}

/// The arguments that begin at `pos`, and the number of tokens they take.
/// They end before the first token that begins no argument.
pub open spec fn atoms_spec(ts: Seq<TokenView>, pos: nat) -> Result<
    (Seq<ast::ExprView>, nat),
    LineError,
>
    decreases room(ts.len(), pos), 0nat,
{
    if pos >= ts.len() {
        Ok((Seq::empty(), 0))
    } else {
        match ts[pos as int] {
            TokenView::Ident(a) => match atoms_spec(ts, pos + 1) {
                Err(x) => Err(x),
                Ok(r) => Ok((seq![bare(a)] + r.0, r.1 + 1)),
            },
            TokenView::Open => match expr_spec(ts, pos + 1) {
                Err(x) => Err(x),
                Ok(r) => {
                    let end = pos + 1 + r.1;
                    if end < ts.len() && ts[end as int] is Close {
                        match atoms_spec(ts, end + 1) {
                            Err(x) => Err(x),
                            Ok(more) => Ok((seq![r.0] + more.0, r.1 + 2 + more.1)),
                        }
                    } else {
                        Err(stray(ts, end))
                    }
                },
            },
            _ => Ok((Seq::empty(), 0)),
        }
    }
}

/// The number of names in a row from `pos` on.
pub open spec fn ident_run(ts: Seq<TokenView>, pos: nat) -> nat
    decreases room(ts.len(), pos),
{
    if pos < ts.len() && ts[pos as int] is Ident {
        1 + ident_run(ts, pos + 1)
    } else {
        0
    }
}

/// The names at the positions from `from` up to `to`.
pub open spec fn names_of(ts: Seq<TokenView>, from: nat, to: nat) -> Seq<Seq<char>> {
    Seq::new((to - from) as nat, |i: int| ts[from + i]->Ident_0)
}

/// The line that the tokens `ts` make up: an annotation where a colon
/// follows the first name, else a definition.
pub open spec fn line_spec(ts: Seq<TokenView>) -> Result<ast::LineView, LineError> {
    if ts.len() == 0 {
        Err(LineError::UnexpectedEnd)
    } else if !(ts[0] is Ident) {
        Err(LineError::UnexpectedToken { at: 0 })
    } else if ts.len() > 1 && ts[1] is Colon {
        match expr_spec(ts, 2) {
            Err(x) => Err(x),
            Ok(r) => if 2 + r.1 == ts.len() {
                Ok(
                    ast::LineView::Annotation(
                        ast::AnnotationView { is_post: false, name: ts[0]->Ident_0, typ: r.0 },
                    ),
                )
            } else {
                Err(stray(ts, 2 + r.1))
            },
        }
    } else {
        let v = 1 + ident_run(ts, 1);
        if v < ts.len() && ts[v as int] is Equals {
            match expr_spec(ts, v + 1) {
                Err(x) => Err(x),
                Ok(r) => if v + 1 + r.1 == ts.len() {
                    Ok(
                        ast::LineView::Function(
                            ast::FunctionView {
                                fname: ts[0]->Ident_0,
                                vars: names_of(ts, 1, v),
                                body: r.0,
                            },
                        ),
                    )
                } else {
                    Err(stray(ts, v + 1 + r.1))
                },
            }
        } else {
            Err(stray(ts, v))
        }
    }
}

/// The line that the text `s` is.
pub open spec fn parse_line_spec(s: Seq<char>) -> Result<ast::LineView, LineError> {
    match lex_spec(s, 0) {
        Err(x) => Err(x),
        Ok(ts) => line_spec(ts),
    }
}

/// The value of a result that carries a line.
pub open spec fn line_view(r: Result<ast::Line, LineError>) -> Result<ast::LineView, LineError> {
    match r {
        Ok(l) => Ok(l@),
        Err(x) => Err(x),
    }
}

/// Whether a binder has a name with a character, if it has a name, and
/// a domain in which every name has one.
pub open spec fn param_written(p: (Option<Seq<char>>, ast::ExprView)) -> bool
    decreases p, 0nat,
{
    &&& p.0 matches Some(n) ==> n.len() > 0
    &&& written(p.1)
}

/// Whether every name in `e` has a character.
pub open spec fn written(e: ast::ExprView) -> bool
    decreases e, 1nat,
{
    match e {
        ast::ExprView::Arrow { params, output } => {
            &&& forall|j: int| 0 <= j < params.len() ==> param_written(#[trigger] params[j])
            &&& written(*output)
        },
        ast::ExprView::Alg { head, tail } => {
            &&& head.len() > 0
            &&& forall|j: int| 0 <= j < tail.len() ==> written(#[trigger] tail[j])
        },
    }
}

/// Whether every name in a line has a character.
pub open spec fn line_written(l: ast::LineView) -> bool {
    match l {
        ast::LineView::Annotation(a) => a.name.len() > 0 && written(a.typ),
        ast::LineView::Function(f) => f.fname.len() > 0 && written(f.body) && forall|j: int|
            0 <= j < f.vars.len() ==> (#[trigger] f.vars[j]).len() > 0,
    }
}

/// Every name in an expression that the grammar reads has a character.
pub proof fn lemma_expr_written(ts: Seq<TokenView>, pos: nat)
    requires
        names_nonempty(ts),
        expr_spec(ts, pos) is Ok,
    ensures
        written(expr_spec(ts, pos)->Ok_0.0),
    decreases room(ts.len(), pos), 3nat,
{
    lemma_chain_written(ts, pos, Seq::empty());
}

/// Every name in a chain that the grammar reads has a character, where
/// the binders read before have.
pub proof fn lemma_chain_written(
    ts: Seq<TokenView>,
    pos: nat,
    params: Seq<(Option<Seq<char>>, ast::ExprView)>,
)
    requires
        names_nonempty(ts),
        forall|j: int| 0 <= j < params.len() ==> param_written(#[trigger] params[j]),
        chain_spec(ts, pos, params) is Ok,
    ensures
        written(chain_spec(ts, pos, params)->Ok_0.0),
    decreases room(ts.len(), pos), 2nat,
{
    lemma_piece_written(ts, pos);
    let r = piece_spec(ts, pos)->Ok_0;
    let next = pos + 1 + r.1;
    if next < ts.len() && ts[next as int] is Arrow {
        let more = params.push(as_param(r.0));
        assert forall|j: int| 0 <= j < more.len() implies param_written(#[trigger] more[j]) by {
            if j < params.len() {
                assert(more[j] == params[j]);
            }
        }
        lemma_chain_written(ts, next + 1, more);
    }
}

/// Whether every name in a piece has a character.
pub open spec fn piece_written(p: PieceView) -> bool {
    match p {
        PieceView::Binder { name, ty } => name.len() > 0 && written(ty),
        PieceView::Plain { e } => written(e),
    }
}

/// Every name in a piece that the grammar reads has a character.
pub proof fn lemma_piece_written(ts: Seq<TokenView>, pos: nat)
    requires
        names_nonempty(ts),
        piece_spec(ts, pos) is Ok,
    ensures
        piece_written(piece_spec(ts, pos)->Ok_0.0),
    decreases room(ts.len(), pos), 1nat,
{
    match ts[pos as int] {
        TokenView::Ident(h) => {
            lemma_atoms_written(ts, pos + 1);
        },
        TokenView::Open => {
            if pos + 2 < ts.len() && ts[pos as int + 1] is Ident && ts[pos as int + 2] is Colon {
                lemma_expr_written(ts, pos + 3);
            } else {
                lemma_expr_written(ts, pos + 1);
            }
        },
        _ => {},
    }
}

/// Every name in the arguments that the grammar reads has a character.
pub proof fn lemma_atoms_written(ts: Seq<TokenView>, pos: nat)
    requires
        names_nonempty(ts),
        atoms_spec(ts, pos) is Ok,
    ensures
        forall|j: int|
            0 <= j < atoms_spec(ts, pos)->Ok_0.0.len() ==> written(
                #[trigger] atoms_spec(ts, pos)->Ok_0.0[j],
            ),
    decreases room(ts.len(), pos), 0nat,
{
    if pos < ts.len() {
        let all = atoms_spec(ts, pos)->Ok_0.0;
        match ts[pos as int] {
            TokenView::Ident(a) => {
                lemma_atoms_written(ts, pos + 1);
                let rest = atoms_spec(ts, pos + 1)->Ok_0.0;
                assert forall|j: int| 0 <= j < all.len() implies written(#[trigger] all[j]) by {
                    if j > 0 {
                        assert(all[j] == rest[j - 1]);
                    }
                }
            },
            TokenView::Open => {
                lemma_expr_written(ts, pos + 1);
                let r = expr_spec(ts, pos + 1)->Ok_0;
                let end = pos + 1 + r.1;
                lemma_atoms_written(ts, end + 1);
                let rest = atoms_spec(ts, end + 1)->Ok_0.0;
                assert forall|j: int| 0 <= j < all.len() implies written(#[trigger] all[j]) by {
                    if j > 0 {
                        assert(all[j] == rest[j - 1]);
                    }
                }
            },
            _ => {},
        }
    }
}

/// Every name in a line that the grammar reads has a character: no line
/// spells the name under which unnamed binders are recorded.
pub proof fn lemma_line_written(s: Seq<char>)
    requires
        parse_line_spec(s) is Ok,
    ensures
        line_written(parse_line_spec(s)->Ok_0),
{
    lemma_lex_names(s, 0);
    let ts = lex_spec(s, 0)->Ok_0;
    if ts.len() > 1 && ts[1] is Colon {
        lemma_expr_written(ts, 2);
    } else {
        let v = 1 + ident_run(ts, 1);
        lemma_expr_written(ts, v + 1);
        lemma_ident_run(ts, 1);
    }
}

/// The tokens of a run of names are names.
pub proof fn lemma_ident_run(ts: Seq<TokenView>, pos: nat)
    ensures
        forall|k: int| pos <= k < pos + ident_run(ts, pos) ==> k < ts.len() && (#[trigger] ts[k]) is Ident,
    decreases room(ts.len(), pos),
{
    if pos < ts.len() && ts[pos as int] is Ident {
        lemma_ident_run(ts, pos + 1);
    }
}

fn stray_at(ts: &Vec<Token>, pos: usize) -> (r: LineError)
    ensures
        r == stray(token_views(ts@), pos as nat),
{
    if pos < ts.len() {
        LineError::UnexpectedToken { at: pos }
    } else {
        LineError::UnexpectedEnd
    }
}

fn is_close(ts: &Vec<Token>, pos: usize) -> (r: bool)
    ensures
        r == (pos < ts.len() && token_views(ts@)[pos as int] is Close),
{
    if pos < ts.len() {
        match &ts[pos] {
            Token::Close => true,
            _ => false,
        }
    } else {
        false
    }
}

fn is_arrow(ts: &Vec<Token>, pos: usize) -> (r: bool)
    ensures
        r == (pos < ts.len() && token_views(ts@)[pos as int] is Arrow),
{
    if pos < ts.len() {
        match &ts[pos] {
            Token::Arrow => true,
            _ => false,
        }
    } else {
        false
    }
}

fn is_colon(ts: &Vec<Token>, pos: usize) -> (r: bool)
    ensures
        r == (pos < ts.len() && token_views(ts@)[pos as int] is Colon),
{
    if pos < ts.len() {
        match &ts[pos] {
            Token::Colon => true,
            _ => false,
        }
    } else {
        false
    }
}

fn is_equals(ts: &Vec<Token>, pos: usize) -> (r: bool)
    ensures
        r == (pos < ts.len() && token_views(ts@)[pos as int] is Equals),
{
    if pos < ts.len() {
        match &ts[pos] {
            Token::Equals => true,
            _ => false,
        }
    } else {
        false
    }
}

fn name_at(ts: &Vec<Token>, pos: usize) -> (r: Option<String>)
    ensures
        match r {
            Some(s) => pos < ts.len() && token_views(ts@)[pos as int] == TokenView::Ident(s@),
            None => !(pos < ts.len() && token_views(ts@)[pos as int] is Ident),
        },
{
    if pos < ts.len() {
        match &ts[pos] {
            Token::Ident(s) => Some(s.clone()),
            _ => None,
        }
    } else {
        None
    }
}

fn bare_name(name: String) -> (r: ast::Expr)
    ensures
        r@ == bare(name@),
{
    let r = ast::Expr::Alg(ast::AlgExpr { head: name, tail: Vec::new() });
    assert(ast::views(Seq::<ast::Expr>::empty()) =~= Seq::<ast::ExprView>::empty());
    r
}

fn parse_atoms(ts: &Vec<Token>, pos: usize) -> (res: Result<(Vec<ast::Expr>, usize), LineError>)
    requires
        pos <= ts.len(),
    ensures
        match atoms_spec(token_views(ts@), pos as nat) {
            Ok(r) => res is Ok && ast::views(res->Ok_0.0@) == r.0 && res->Ok_0.1 == pos + r.1
                && res->Ok_0.1 <= ts.len(),
            Err(x) => res is Err && res->Err_0 == x,
        },
    decreases ts.len() - pos, 0nat,
{
    if pos >= ts.len() {
        let none: Vec<ast::Expr> = Vec::new();
        assert(ast::views(none@) =~= Seq::<ast::ExprView>::empty());
        return Ok((none, pos));
    }
    if let Some(a) = name_at(ts, pos) {
        let first = bare_name(a);
        let (mut rest, end) = match parse_atoms(ts, pos + 1) {
            Err(x) => {
                return Err(x);
            },
            Ok(r) => r,
        };
        let ghost tail = ast::views(rest@);
        rest.insert(0, first);
        assert(ast::views(rest@) =~= seq![first@] + tail);
        return Ok((rest, end));
    }
    let opened = match &ts[pos] {
        Token::Open => true,
        _ => false,
    };
    if !opened {
        let none: Vec<ast::Expr> = Vec::new();
        assert(ast::views(none@) =~= Seq::<ast::ExprView>::empty());
        return Ok((none, pos));
    }
    let (e, end) = match parse_expr(ts, pos + 1) {
        Err(x) => {
            return Err(x);
        },
        Ok(r) => r,
    };
    if !is_close(ts, end) {
        return Err(stray_at(ts, end));
    }
    let (mut rest, last) = match parse_atoms(ts, end + 1) {
        Err(x) => {
            return Err(x);
        },
        Ok(r) => r,
    };
    let ghost tail = ast::views(rest@);
    rest.insert(0, e);
    assert(ast::views(rest@) =~= seq![e@] + tail);
    Ok((rest, last))
}

fn parse_piece(ts: &Vec<Token>, pos: usize) -> (res: Result<(Piece, usize), LineError>)
    requires
        pos <= ts.len(),
    ensures
        match piece_spec(token_views(ts@), pos as nat) {
            Ok(r) => res is Ok && res->Ok_0.0@ == r.0 && res->Ok_0.1 == pos + 1 + r.1
                && res->Ok_0.1 <= ts.len(),
            Err(x) => res is Err && res->Err_0 == x,
        },
    decreases ts.len() - pos, 1nat,
{
    if pos >= ts.len() {
        return Err(LineError::UnexpectedEnd);
    }
    if let Some(h) = name_at(ts, pos) {
        let (args, end) = match parse_atoms(ts, pos + 1) {
            Err(x) => {
                return Err(x);
            },
            Ok(r) => r,
        };
        return Ok((Piece::Plain(ast::Expr::Alg(ast::AlgExpr { head: h, tail: args })), end));
    }
    let opened = match &ts[pos] {
        Token::Open => true,
        _ => false,
    };
    if !opened {
        return Err(LineError::UnexpectedToken { at: pos });
    }
    if pos + 1 < ts.len() && is_colon(ts, pos + 2) {
        if let Some(name) = name_at(ts, pos + 1) {
            let (ty, end) = match parse_expr(ts, pos + 3) {
                Err(x) => {
                    return Err(x);
                },
                Ok(r) => r,
            };
            if !is_close(ts, end) {
                return Err(stray_at(ts, end));
            }
            return Ok((Piece::Binder(name, ty), end + 1));
        }
    }
    let (e, end) = match parse_expr(ts, pos + 1) {
        Err(x) => {
            return Err(x);
        },
        Ok(r) => r,
    };
    if !is_close(ts, end) {
        return Err(stray_at(ts, end));
    }
    Ok((Piece::Plain(e), end + 1))
}

fn parse_chain(
    ts: &Vec<Token>,
    pos: usize,
    params: Vec<(Option<String>, ast::Expr)>,
) -> (res: Result<(ast::Expr, usize), LineError>)
    requires
        pos <= ts.len(),
    ensures
        match chain_spec(token_views(ts@), pos as nat, ast::binder_views(params@)) {
            Ok(r) => res is Ok && res->Ok_0.0@ == r.0 && res->Ok_0.1 == pos + r.1 && res->Ok_0.1
                <= ts.len(),
            Err(x) => res is Err && res->Err_0 == x,
        },
    decreases ts.len() - pos, 2nat,
{
    let (piece, next) = match parse_piece(ts, pos) {
        Err(x) => {
            return Err(x);
        },
        Ok(r) => r,
    };
    if is_arrow(ts, next) {
        let mut params = params;
        let ghost before = ast::binder_views(params@);
        let ghost p = as_param(piece@);
        let param = match piece {
            Piece::Binder(name, ty) => (Some(name), ty),
            Piece::Plain(e) => (None, e),
        };
        params.push(param);
        assert(ast::binder_views(params@) =~= before.push(p));
        parse_chain(ts, next + 1, params)
    } else {
        match piece {
            Piece::Binder(_, _) => Err(LineError::BinderWithoutArrow { at: pos }),
            Piece::Plain(e) => {
                if params.len() == 0 {
                    Ok((e, next))
                } else {
                    Ok((ast::Expr::Arrow(ast::ArrowExpr { params, output: Box::new(e) }), next))
                }
            },
        }
    }
}

/// Reads the expression that begins at the token `pos`, and gives it with
/// the position after it.
fn parse_expr(ts: &Vec<Token>, pos: usize) -> (res: Result<(ast::Expr, usize), LineError>)
    requires
        pos <= ts.len(),
    ensures
        match expr_spec(token_views(ts@), pos as nat) {
            Ok(r) => res is Ok && res->Ok_0.0@ == r.0 && res->Ok_0.1 == pos + r.1 && res->Ok_0.1
                <= ts.len(),
            Err(x) => res is Err && res->Err_0 == x,
        },
    decreases ts.len() - pos, 3nat,
{
    let none: Vec<(Option<String>, ast::Expr)> = Vec::new();
    assert(ast::binder_views(none@) =~= Seq::<(Option<Seq<char>>, ast::ExprView)>::empty());
    parse_chain(ts, pos, none)
}

/// Reads a line from its tokens.
pub fn parse_tokens(ts: &Vec<Token>) -> (res: Result<ast::Line, LineError>)
    ensures
        line_view(res) == line_spec(token_views(ts@)),
{
    let ghost tv = token_views(ts@);
    let name = match name_at(ts, 0) {
        None => {
            return Err(stray_at(ts, 0));
        },
        Some(n) => n,
    };
    if is_colon(ts, 1) {
        let (typ, end) = match parse_expr(ts, 2) {
            Err(x) => {
                return Err(x);
            },
            Ok(r) => r,
        };
        if end != ts.len() {
            return Err(stray_at(ts, end));
        }
        return Ok(ast::Line::Annotation(ast::Annotation { is_post: false, name, typ }));
    }
    let mut vars: Vec<String> = Vec::new();
    let mut v: usize = 1;
    assert(texts(vars@) =~= names_of(tv, 1, 1));
    loop
        invariant
            1 <= v <= ts.len(),
            tv == token_views(ts@),
            ident_run(tv, 1) == (v - 1) + ident_run(tv, v as nat),
            texts(vars@) == names_of(tv, 1, v as nat),
        ensures
            !(v < ts.len() && tv[v as int] is Ident),
        decreases ts.len() - v,
    {
        match name_at(ts, v) {
            None => {
                break ;
            },
            Some(x) => {
                let ghost before = texts(vars@);
                vars.push(x);
                assert(texts(vars@) =~= names_of(tv, 1, (v + 1) as nat)) by {
                    assert(texts(vars@) =~= before.push(x@));
                }
                v += 1;
            },
        }
    }
    assert(ident_run(tv, v as nat) == 0);
    if !is_equals(ts, v) {
        return Err(stray_at(ts, v));
    }
    let (body, end) = match parse_expr(ts, v + 1) {
        Err(x) => {
            return Err(x);
        },
        Ok(r) => r,
    };
    if end != ts.len() {
        return Err(stray_at(ts, end));
    }
    Ok(ast::Line::Function(ast::Function { fname: name, vars, body }))
}

/// Reads a line.
pub fn parse_line(line: &str) -> (res: Result<ast::Line, LineError>)
    ensures
        line_view(res) == parse_line_spec(line@),
{
    let ts = match lex(line) {
        Err(x) => {
            return Err(x);
        },
        Ok(ts) => ts,
    };
    parse_tokens(&ts)
}

} // verus!
