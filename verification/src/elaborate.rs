//! Elaboration: from names to de Bruijn indices.

use crate::ast;
use crate::context::{get_index, last_index_of, lemma_last_index_of, texts, Context};
use crate::decimal::{numeral, parse_decimal};
use crate::error::{checked_view, list_view, Checked, TypeError, TypeErrorView};
use crate::outcome::{collect, lemma_collect_err, lemma_collect_is_ok, lemma_collect_ok};
use crate::term::{globals_below, views, Expr, ExprView, Ident};
use vstd::prelude::*;

verus! {

broadcast use {crate::term::lemma_view, crate::ast::lemma_view};

/// The name recorded for a binder that was given none: the empty name,
/// which no token spells.
pub open spec fn placeholder() -> Seq<char> {
    Seq::empty()
}

/// The name recorded for a binder.
pub open spec fn binder_name(name: Option<Seq<char>>) -> Seq<char> {
    match name {
        Some(s) => s,
        None => placeholder(),
    }
}

/// The level that `name` stands for, where it is `U` and a numeral.
pub open spec fn universe_literal(name: Seq<char>) -> Option<usize> {
    if name.len() > 0 && name[0] == 'U' {
        numeral(name, 1)
    } else {
        None
    }
}

/// What the head name `name` refers to: a local, else a global, else a
/// universe.
pub open spec fn resolve_spec(
    globals: Seq<Seq<char>>,
    locals: Seq<Seq<char>>,
    name: Seq<char>,
) -> Result<Ident, TypeErrorView> {
    match last_index_of(locals, name) {
        Some(i) => Ok(Ident::Local(i)),
        None => match last_index_of(globals, name) {
            Some(i) => Ok(Ident::Global(i)),
            None => match universe_literal(name) {
                Some(l) => Ok(Ident::Universe(l)),
                None => Err(TypeErrorView::UnknownIdentifier { name }),
            },
        },
    }
}

/// The term that `e` stands for, where `locals` names the binders in
/// scope and `globals` the global table.
pub open spec fn convert_spec(
    globals: Seq<Seq<char>>,
    locals: Seq<Seq<char>>,
    e: ast::ExprView,
) -> Checked {
    layers_spec(globals, locals, Seq::empty(), e)
}

/// The term that `e` stands for behind the binder domains `acc`, whose
/// names are the last of `scope`. Layers of binders are peeled off one
/// after the other; the application they end in has its head resolved
/// and then its arguments elaborated.
pub open spec fn layers_spec(
    globals: Seq<Seq<char>>,
    scope: Seq<Seq<char>>,
    acc: Seq<ExprView>,
    e: ast::ExprView,
) -> Checked
    decreases e, 0nat,
{
    match e {
        ast::ExprView::Arrow { params, output } => match binders_spec(
            globals,
            scope,
            acc,
            params,
            0,
        ) {
            Err(x) => Err(x),
            Ok(st) => layers_spec(globals, st.0, st.1, *output),
        },
        ast::ExprView::Alg { head, tail } => if scope.len() > usize::MAX {
            Err(TypeErrorView::IndexOverflow)
        } else {
            match resolve_spec(globals, scope, head) {
                Err(x) => Err(x),
                Ok(h) => match collect(convert_each(globals, scope, tail)) {
                    Err(x) => Err(x),
                    Ok(ts) => Ok(ExprView { arrow_params: acc, head: h, tail: ts }),
                },
            }
        },
    }
}

/// The binders of one layer from position `k` on: each domain is
/// elaborated under the names before it, and then its own name is
/// recorded.
pub open spec fn binders_spec(
    globals: Seq<Seq<char>>,
    scope: Seq<Seq<char>>,
    acc: Seq<ExprView>,
    params: Seq<(Option<Seq<char>>, ast::ExprView)>,
    k: nat,
) -> Result<(Seq<Seq<char>>, Seq<ExprView>), TypeErrorView>
    decreases params, params.len() - k,
{
    if k >= params.len() {
        Ok((scope, acc))
    } else if scope.len() > usize::MAX {
        Err(TypeErrorView::IndexOverflow)
    } else {
        match layers_spec(globals, scope, Seq::empty(), params[k as int].1) {
            Err(x) => Err(x),
            Ok(t) => binders_spec(
                globals,
                scope.push(binder_name(params[k as int].0)),
                acc.push(t),
                params,
                k + 1,
            ),
        }
    }
}

/// `convert_spec` on each expression of a sequence.
pub open spec fn convert_each(
    globals: Seq<Seq<char>>,
    scope: Seq<Seq<char>>,
    s: Seq<ast::ExprView>,
) -> Seq<Checked>
    decreases s, 0nat,
{
    Seq::new(
        s.len(),
        |j: int|
            if 0 <= j < s.len() {
                layers_spec(globals, scope, Seq::empty(), s[j])
            } else {
                Err(TypeErrorView::IndexOverflow)
            },
    )
}

/// `convert_each`, element by element.
pub proof fn lemma_convert_each(
    globals: Seq<Seq<char>>,
    scope: Seq<Seq<char>>,
    s: Seq<ast::ExprView>,
)
    ensures
        convert_each(globals, scope, s).len() == s.len(),
        forall|j: int|
            0 <= j < s.len() ==> #[trigger] convert_each(globals, scope, s)[j] == convert_spec(
                globals,
                scope,
                s[j],
            ),
{
    reveal_with_fuel(convert_each, 2);
}

/// A name with a character refers to a binder that was written with that
/// name, never to one that was given none.
pub proof fn lemma_resolve_named(
    globals: Seq<Seq<char>>,
    locals: Seq<Seq<char>>,
    name: Seq<char>,
)
    requires
        locals.len() <= usize::MAX,
        name.len() > 0,
        resolve_spec(globals, locals, name) matches Ok(Ident::Local(_)),
    ensures
        ({
            let i = resolve_spec(globals, locals, name)->Ok_0->Local_0;
            &&& i < locals.len()
            &&& locals[i as int] == name
            &&& locals[i as int] != placeholder()
        }),
{
    lemma_last_index_of(locals, name);
}

/// Elaboration refers to entries of the table only: every global of the
/// term it gives lies below the length of the table.
pub proof fn lemma_convert_below(globals: Seq<Seq<char>>, locals: Seq<Seq<char>>, e: ast::ExprView)
    requires
        globals.len() <= usize::MAX,
        convert_spec(globals, locals, e) is Ok,
    ensures
        globals_below(convert_spec(globals, locals, e)->Ok_0, globals.len()),
{
    lemma_layers_below(globals, locals, Seq::empty(), e);
}

/// What `layers_spec` gives refers to entries of the table only, where
/// the domains read so far do.
pub proof fn lemma_layers_below(
    globals: Seq<Seq<char>>,
    scope: Seq<Seq<char>>,
    acc: Seq<ExprView>,
    e: ast::ExprView,
)
    requires
        globals.len() <= usize::MAX,
        forall|j: int| 0 <= j < acc.len() ==> globals_below(#[trigger] acc[j], globals.len()),
        layers_spec(globals, scope, acc, e) is Ok,
    ensures
        globals_below(layers_spec(globals, scope, acc, e)->Ok_0, globals.len()),
    decreases e, 0nat,
{
    match e {
        ast::ExprView::Arrow { params, output } => {
            lemma_binders_below(globals, scope, acc, params, 0);
            let st = binders_spec(globals, scope, acc, params, 0)->Ok_0;
            lemma_layers_below(globals, st.0, st.1, *output);
        },
        ast::ExprView::Alg { head, tail } => {
            lemma_last_index_of(globals, head);
            let rs = convert_each(globals, scope, tail);
            lemma_convert_each(globals, scope, tail);
            lemma_collect_is_ok(rs);
            let ts = collect(rs)->Ok_0;
            assert forall|j: int| 0 <= j < ts.len() implies globals_below(
                #[trigger] ts[j],
                globals.len(),
            ) by {
                assert(rs[j] == Ok::<ExprView, TypeErrorView>(ts[j]));
                lemma_layers_below(globals, scope, Seq::empty(), tail[j]);
            }
        },
    }
}

/// The domains that `binders_spec` gives refer to entries of the table
/// only, where the domains read so far do.
pub proof fn lemma_binders_below(
    globals: Seq<Seq<char>>,
    scope: Seq<Seq<char>>,
    acc: Seq<ExprView>,
    params: Seq<(Option<Seq<char>>, ast::ExprView)>,
    k: nat,
)
    requires
        globals.len() <= usize::MAX,
        forall|j: int| 0 <= j < acc.len() ==> globals_below(#[trigger] acc[j], globals.len()),
        binders_spec(globals, scope, acc, params, k) is Ok,
    ensures
        forall|j: int|
            0 <= j < binders_spec(globals, scope, acc, params, k)->Ok_0.1.len() ==> globals_below(
                #[trigger] binders_spec(globals, scope, acc, params, k)->Ok_0.1[j],
                globals.len(),
            ),
    decreases params, params.len() - k,
{
    if k < params.len() {
        let t = layers_spec(globals, scope, Seq::empty(), params[k as int].1)->Ok_0;
        lemma_layers_below(globals, scope, Seq::empty(), params[k as int].1);
        let more = acc.push(t);
        assert forall|j: int| 0 <= j < more.len() implies globals_below(
            #[trigger] more[j],
            globals.len(),
        ) by {
            if j < acc.len() {
                assert(more[j] == acc[j]);
            }
        }
        lemma_binders_below(
            globals,
            scope.push(binder_name(params[k as int].0)),
            more,
            params,
            k + 1,
        );
    }
}

/// The level that `name` stands for, where it is `U` and a numeral.
pub fn universe_level_of(name: &String) -> (r: Option<usize>)
    ensures
        r == universe_literal(name@),
{
    let text = name.as_str();
    if text.unicode_len() == 0 {
        return None;
    }
    if text.get_char(0) != 'U' {
        return None;
    }
    parse_decimal(text, 1)
}

/// Resolves a head name: a local, else a global, else a universe.
pub fn resolve(globals: &Vec<String>, locals: &Context<String>, name: &String) -> (res: Result<
    Ident,
    TypeError,
>)
    requires
        locals.well_formed(),
        locals.is_unshadowed(),
    ensures
        match resolve_spec(texts(globals@), texts(locals@), name@) {
            Ok(h) => res == Ok::<Ident, TypeError>(h),
            Err(x) => res is Err && res->Err_0@ == x,
        },
{
    if let Some(id) = locals.index_from_value(name) {
        return Ok(Ident::Local(id));
    }
    if let Some(id) = get_index(globals.as_slice(), name) {
        return Ok(Ident::Global(id));
    }
    match universe_level_of(name) {
        Some(l) => Ok(Ident::Universe(l)),
        None => Err(TypeError::UnknownIdentifier { name: name.clone() }),
    }
}

fn convert_all(globals: &Vec<String>, scope: &Context<String>, xs: &Vec<ast::Expr>) -> (res: Result<
    Vec<Expr>,
    TypeError,
>)
    requires
        scope.well_formed(),
        scope.is_unshadowed(),
    ensures
        list_view(res) == collect(convert_each(texts(globals@), texts(scope@), ast::views(xs@))),
    decreases xs, 0nat,
{
    let ghost g = texts(globals@);
    let ghost names = texts(scope@);
    let ghost rs = convert_each(g, names, ast::views(xs@));
    proof {
        lemma_convert_each(g, names, ast::views(xs@));
    }
    let mut out: Vec<Expr> = Vec::new();
    let mut i: usize = 0;
    while i < xs.len()
        invariant
            i <= xs.len(),
            out.len() == i,
            scope.well_formed(),
            scope.is_unshadowed(),
            g == texts(globals@),
            names == texts(scope@),
            rs == convert_each(g, names, ast::views(xs@)),
            rs.len() == xs.len(),
            forall|j: int|
                0 <= j < xs.len() ==> #[trigger] rs[j] == convert_spec(g, names, xs@[j]@),
            forall|j: int| 0 <= j < i ==> rs[j] == Ok::<ExprView, TypeErrorView>(out@[j]@),
        decreases xs.len() - i,
    {
        match convert_expr(globals, scope, &xs[i]) {
            Err(e) => {
                proof {
                    lemma_collect_err(rs, i as int);
                }
                return Err(e);
            },
            Ok(x) => {
                out.push(x);
            },
        }
        i += 1;
    }
    proof {
        lemma_collect_ok(rs, views(out@));
    }
    Ok(out)
}

/// Elaborates the binders of one layer, adding their domains to
/// `arrow_params` and their names to `new_locals`.
fn convert_binders(
    globals: &Vec<String>,
    locals: &Context<String>,
    names: Vec<String>,
    domains: Vec<Expr>,
    params: &Vec<(Option<String>, ast::Expr)>,
) -> (res: Result<(Vec<String>, Vec<Expr>), TypeError>)
    requires
        locals.well_formed(),
        locals.is_unshadowed(),
    ensures
        match binders_spec(
            texts(globals@),
            texts(locals@) + texts(names@),
            views(domains@),
            ast::binder_views(params@),
            0,
        ) {
            Ok(st) => res is Ok && texts(locals@) + texts(res->Ok_0.0@) == st.0 && views(
                res->Ok_0.1@,
            ) == st.1,
            Err(x) => res is Err && res->Err_0@ == x,
        },
    decreases params, 0nat,
{
    let ghost g = texts(globals@);
    let ghost outer = texts(locals@);
    let ghost ps = ast::binder_views(params@);
    let ghost goal = binders_spec(g, outer + texts(names@), views(domains@), ps, 0);
    let mut new_locals = names;
    let mut arrow_params = domains;
    let base_size = locals.size();
    let mut k: usize = 0;
    while k < params.len()
        invariant
            k <= params.len(),
            locals.well_formed(),
            locals.is_unshadowed(),
            base_size == locals@.len(),
            g == texts(globals@),
            outer == texts(locals@),
            ps == ast::binder_views(params@),
            goal == binders_spec(g, outer + texts(names@), views(domains@), ps, 0),
            goal == binders_spec(g, outer + texts(new_locals@), views(arrow_params@), ps, k as nat),
        decreases params.len() - k,
    {
        if new_locals.len() > usize::MAX - base_size {
            return Err(TypeError::IndexOverflow);
        }
        let ghost names = outer + texts(new_locals@);
        let ghost acc = views(arrow_params@);
        {
            let scope = locals.push(new_locals.as_slice());
            assert(texts(scope@) =~= names);
            match convert_expr(globals, &scope, &params[k].1) {
                Err(e) => {
                    return Err(e);
                },
                Ok(t) => {
                    arrow_params.push(t);
                },
            }
        }
        let name = match &params[k].0 {
            Some(s) => s.clone(),
            None => String::new(),
        };
        new_locals.push(name);
        proof {
            assert(outer + texts(new_locals@) =~= names.push(binder_name(ps[k as int].0)));
            assert(views(arrow_params@) =~= acc.push(arrow_params@[k as int + acc.len() - k]@));
        }
        k += 1;
    }
    Ok((new_locals, arrow_params))
}

fn convert_layers(
    globals: &Vec<String>,
    locals: &Context<String>,
    new_locals: Vec<String>,
    arrow_params: Vec<Expr>,
    expr: &ast::Expr,
) -> (res: Result<Expr, TypeError>)
    requires
        locals.well_formed(),
        locals.is_unshadowed(),
    ensures
        checked_view(res) == layers_spec(
            texts(globals@),
            texts(locals@) + texts(new_locals@),
            views(arrow_params@),
            expr@,
        ),
    decreases expr, 0nat,
{
    match expr {
        ast::Expr::Arrow(arrow) => {
            let (names, domains) = match convert_binders(
                globals,
                locals,
                new_locals,
                arrow_params,
                &arrow.params,
            ) {
                Err(e) => {
                    return Err(e);
                },
                Ok(st) => st,
            };
            convert_layers(globals, locals, names, domains, &*arrow.output)
        },
        ast::Expr::Alg(alg) => {
            if new_locals.len() > usize::MAX - locals.size() {
                return Err(TypeError::IndexOverflow);
            }
            let scope = locals.push(new_locals.as_slice());
            assert(texts(scope@) =~= texts(locals@) + texts(new_locals@));
            let head = match resolve(globals, &scope, &alg.head) {
                Err(e) => {
                    return Err(e);
                },
                Ok(h) => h,
            };
            let tail = match convert_all(globals, &scope, &alg.tail) {
                Err(e) => {
                    return Err(e);
                },
                Ok(v) => v,
            };
            let r = Expr { arrow_params, head, tail };
            assert(r@.arrow_params =~= views(arrow_params@));
            assert(r@.tail =~= views(tail@));
            Ok(r)
        },
    }
}

/// Elaborates `expr`: every name becomes an index. `locals` names the
/// binders in scope, the innermost last, and must hide nothing.
pub fn convert_expr(globals: &Vec<String>, locals: &Context<String>, expr: &ast::Expr) -> (res:
    Result<Expr, TypeError>)
    requires
        locals.well_formed(),
        locals.is_unshadowed(),
    ensures
        checked_view(res) == convert_spec(texts(globals@), texts(locals@), expr@),
    decreases expr, 1nat,
{
    let r = convert_layers(globals, locals, Vec::new(), Vec::new(), expr);
    proof {
        assert(texts(locals@) + texts(Seq::<String>::empty()) =~= texts(locals@));
        assert(views(Seq::<Expr>::empty()) =~= Seq::<ExprView>::empty());
    }
    r
}

} // verus!
