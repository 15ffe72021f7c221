//! The checker: the type of a term, and the two checks built on it.

use crate::context::Context;
use crate::error::{checked_view, unit_view, Checked, TypeError, TypeErrorView};
use crate::eval::{eval_spec, eval_value, lemma_eval_bare, lemma_eval_fuel};
use crate::globals::{bodies_bare, item_views, items_bare, Item, ItemView};
use crate::outcome::{collect, lemma_collect_err, lemma_collect_is_ok, lemma_collect_ok};
use crate::subst::{lemma_subst_bare, subst, subst_spec};
use crate::term::{universes_bare, views, Expr, ExprView, Ident};
use vstd::prelude::*;
use vstd::slice::slice_subrange;

verus! {

broadcast use crate::term::lemma_view;

/// The universe level that a computed type stands for.
pub open spec fn sort_of(r: Checked) -> Result<usize, TypeErrorView> {
    match r {
        Err(x) => Err(x),
        Ok(t) => match t.universe_level() {
            Some(l) => Ok(l),
            None => Err(TypeErrorView::ExpectedUniverse),
        },
    }
}

/// Whether the computed type of `e` is the one asked for.
pub open spec fn matched(e: ExprView, r: Checked, expected: ExprView) -> Result<
    (),
    TypeErrorView,
> {
    match r {
        Err(x) => Err(x),
        Ok(actual) => if actual == expected {
            Ok(())
        } else {
            Err(TypeErrorView::TypeMismatch { expr: e, actual, expected })
        },
    }
}

/// The value of a result that carries a level.
pub open spec fn level_view(r: Result<usize, TypeError>) -> Result<usize, TypeErrorView> {
    match r {
        Ok(l) => Ok(l),
        Err(x) => Err(x@),
    }
}

/// The type `t`, valid under `ctx` binders, with `args` put for the
/// binders that follow, read under `size` binders and evaluated.
pub open spec fn instantiate_spec(
    g: Seq<ItemView>,
    t: ExprView,
    ctx: usize,
    args: Seq<ExprView>,
    size: usize,
    fuel: nat,
) -> Checked {
    match subst_spec(t, ctx, 0, args, size as nat) {
        Err(x) => Err(x),
        Ok(s) => eval_spec(g, s, size as nat, fuel),
    }
}

/// The type that the head has been given so far, while the arguments are
/// gone through: the type itself, the number of binders under which it is
/// valid, and the position of the first argument that is not yet
/// substituted into it.
pub struct Applied {
    pub actual: ExprView,
    pub ctx: usize,
    pub subbed: nat,
}

/// The state in which the argument at `checked` can be read off: a type
/// with a binder in front. Where `at.actual` has none left, the arguments
/// consumed so far are substituted and the result is evaluated; it must
/// then have a binder.
pub open spec fn ensure_arrow(
    g: Seq<ItemView>,
    size: usize,
    e: ExprView,
    at: Applied,
    checked: nat,
    fuel: nat,
) -> Result<Applied, TypeErrorView> {
    if at.actual.arrow_params.len() == 0 {
        match instantiate_spec(
            g,
            at.actual,
            at.ctx,
            e.tail.subrange(at.subbed as int, checked as int),
            size,
            fuel,
        ) {
            Err(x) => Err(x),
            Ok(t) => if t.arrow_params.len() == 0 {
                Err(TypeErrorView::NotAFunction { ty: t })
            } else {
                Ok(Applied { actual: t, ctx: size, subbed: checked })
            },
        }
    } else {
        Ok(at)
    }
}

/// The type `t` without its first binder.
pub open spec fn after_first(t: ExprView) -> ExprView {
    ExprView { arrow_params: t.arrow_params.remove(0), head: t.head, tail: t.tail }
}

/// The type of `e`, whose locals are typed by `locals`.
///
/// Each binder domain must be a type, under the binders before it. The
/// head gives the type to start from: a local its binder's type, a global
/// its declared type, a universe the next universe (and then nothing may
/// be applied to it). The arguments are then checked in turn against the
/// binders of that type, and the type that is left, with the arguments
/// substituted, is evaluated. Where `e` has binders of its own, what is
/// left must be a universe.
pub open spec fn calculate_type_spec(
    g: Seq<ItemView>,
    locals: Seq<ExprView>,
    e: ExprView,
    fuel: nat,
) -> Checked
    decreases e, 1nat, 0nat,
{
    if locals.len() + e.arrow_params.len() > usize::MAX {
        Err(TypeErrorView::IndexOverflow)
    } else {
        match collect(sorts_each(g, locals, e.arrow_params, fuel)) {
            Err(x) => Err(x),
            Ok(_) => {
                let scope = locals + e.arrow_params;
                match e.head {
                    Ident::Universe(l) => if e.tail.len() > 0 {
                        Err(TypeErrorView::UniverseApplied)
                    } else if l == usize::MAX {
                        Err(TypeErrorView::IndexOverflow)
                    } else {
                        Ok(ExprView::universe((l + 1) as usize))
                    },
                    Ident::Local(i) => if i >= scope.len() {
                        Err(TypeErrorView::UnboundLocal { index: i })
                    } else {
                        apply_spec(
                            g,
                            scope,
                            e,
                            Applied { actual: scope[i as int], ctx: i, subbed: 0 },
                            0,
                            fuel,
                        )
                    },
                    Ident::Global(i) => if i >= g.len() {
                        Err(TypeErrorView::UnboundGlobal { index: i })
                    } else {
                        apply_spec(
                            g,
                            scope,
                            e,
                            Applied { actual: g[i as int].ty, ctx: 0, subbed: 0 },
                            0,
                            fuel,
                        )
                    },
                }
            },
        }
    }
}

/// The level of each binder domain in `ps`, the one at `j` read under
/// `locals` and the `j` domains before it.
pub open spec fn sorts_each(
    g: Seq<ItemView>,
    locals: Seq<ExprView>,
    ps: Seq<ExprView>,
    fuel: nat,
) -> Seq<Result<usize, TypeErrorView>>
    decreases ps, 0nat, 0nat,
{
    Seq::new(
        ps.len(),
        |j: int|
            if 0 <= j < ps.len() {
                sort_of(calculate_type_spec(g, locals + ps.subrange(0, j), ps[j], fuel))
            } else {
                Err(TypeErrorView::IndexOverflow)
            },
    )
}

/// The argument of `e` at `checked`, checked against the first binder of
/// the type in `at`: the state for the arguments after it.
pub open spec fn step_spec(
    g: Seq<ItemView>,
    scope: Seq<ExprView>,
    e: ExprView,
    at: Applied,
    checked: nat,
    fuel: nat,
) -> Result<Applied, TypeErrorView>
    decreases e, 0nat, 0nat,
{
    if checked >= e.tail.len() {
        Ok(at)
    } else {
        match ensure_arrow(g, scope.len() as usize, e, at, checked, fuel) {
            Err(x) => Err(x),
            Ok(ready) => match instantiate_spec(
                g,
                ready.actual.arrow_params[0],
                ready.ctx,
                e.tail.subrange(ready.subbed as int, checked as int),
                scope.len() as usize,
                fuel,
            ) {
                Err(x) => Err(x),
                Ok(expected) => match matched(
                    e.tail[checked as int],
                    calculate_type_spec(g, scope, e.tail[checked as int], fuel),
                    expected,
                ) {
                    Err(x) => Err(x),
                    Ok(_) => Ok(
                        Applied {
                            actual: after_first(ready.actual),
                            ctx: ready.ctx,
                            subbed: ready.subbed,
                        },
                    ),
                },
            },
        }
    }
}

/// What is left of the type in `at` when all arguments are consumed.
pub open spec fn finish_spec(
    g: Seq<ItemView>,
    size: usize,
    e: ExprView,
    at: Applied,
    fuel: nat,
) -> Checked {
    match instantiate_spec(
        g,
        at.actual,
        at.ctx,
        e.tail.subrange(at.subbed as int, e.tail.len() as int),
        size,
        fuel,
    ) {
        Err(x) => Err(x),
        Ok(t) => if e.arrow_params.len() > 0 && t.universe_level() is None {
            Err(TypeErrorView::ExpectedUniverseResult)
        } else {
            Ok(t)
        },
    }
}

/// The arguments of `e` from `checked` on, checked against the type in
/// `at`, and the type that is left in the end.
pub open spec fn apply_spec(
    g: Seq<ItemView>,
    scope: Seq<ExprView>,
    e: ExprView,
    at: Applied,
    checked: nat,
    fuel: nat,
) -> Checked
    decreases e, 0nat, e.tail.len() - checked,
{
    if checked >= e.tail.len() {
        finish_spec(g, scope.len() as usize, e, at, fuel)
    } else {
        match step_spec(g, scope, e, at, checked, fuel) {
            Err(x) => Err(x),
            Ok(then) => apply_spec(g, scope, e, then, checked + 1, fuel),
        }
    }
}

/// The level of the universe that `e` inhabits.
pub open spec fn sort_check_spec(
    g: Seq<ItemView>,
    locals: Seq<ExprView>,
    e: ExprView,
    fuel: nat,
) -> Result<usize, TypeErrorView> {
    sort_of(calculate_type_spec(g, locals, e, fuel))
}

/// Whether `e` has the type `expected`.
pub open spec fn type_check_spec(
    g: Seq<ItemView>,
    locals: Seq<ExprView>,
    e: ExprView,
    expected: ExprView,
    fuel: nat,
) -> Result<(), TypeErrorView> {
    matched(e, calculate_type_spec(g, locals, e, fuel), expected)
}

/// `sorts_each`, element by element.
pub proof fn lemma_sorts_each(
    g: Seq<ItemView>,
    locals: Seq<ExprView>,
    ps: Seq<ExprView>,
    fuel: nat,
)
    ensures
        sorts_each(g, locals, ps, fuel).len() == ps.len(),
        forall|j: int|
            0 <= j < ps.len() ==> #[trigger] sorts_each(g, locals, ps, fuel)[j] == sort_of(
                calculate_type_spec(g, locals + ps.subrange(0, j), ps[j], fuel),
            ),
{
    reveal_with_fuel(sorts_each, 2);
}

/// Where the arguments from `checked` on pass, each of them has a type.
pub proof fn lemma_apply_ok(
    g: Seq<ItemView>,
    scope: Seq<ExprView>,
    e: ExprView,
    at: Applied,
    checked: nat,
    fuel: nat,
)
    requires
        apply_spec(g, scope, e, at, checked, fuel) is Ok,
    ensures
        forall|k: int|
            checked <= k < e.tail.len() ==> (#[trigger] calculate_type_spec(
                g,
                scope,
                e.tail[k],
                fuel,
            )) is Ok,
    decreases e.tail.len() - checked,
{
    if checked < e.tail.len() {
        let then = step_spec(g, scope, e, at, checked, fuel)->Ok_0;
        lemma_apply_ok(g, scope, e, then, checked + 1, fuel);
    }
}

/// A term that has a type has no universe with arguments in it.
pub proof fn lemma_typed_universes_bare(
    g: Seq<ItemView>,
    locals: Seq<ExprView>,
    e: ExprView,
    fuel: nat,
)
    requires
        calculate_type_spec(g, locals, e, fuel) is Ok,
    ensures
        universes_bare(e),
    decreases e,
{
    let rs = sorts_each(g, locals, e.arrow_params, fuel);
    lemma_sorts_each(g, locals, e.arrow_params, fuel);
    lemma_collect_is_ok(rs);
    assert forall|j: int| 0 <= j < e.arrow_params.len() implies universes_bare(
        #[trigger] e.arrow_params[j],
    ) by {
        assert(rs[j] is Ok);
        lemma_typed_universes_bare(
            g,
            locals + e.arrow_params.subrange(0, j),
            e.arrow_params[j],
            fuel,
        );
    }
    let scope = locals + e.arrow_params;
    match e.head {
        Ident::Universe(l) => {},
        Ident::Local(i) => {
            lemma_apply_ok(
                g,
                scope,
                e,
                Applied { actual: scope[i as int], ctx: i, subbed: 0 },
                0,
                fuel,
            );
        },
        Ident::Global(i) => {
            lemma_apply_ok(
                g,
                scope,
                e,
                Applied { actual: g[i as int].ty, ctx: 0, subbed: 0 },
                0,
                fuel,
            );
        },
    }
    assert forall|k: int| 0 <= k < e.tail.len() implies universes_bare(#[trigger] e.tail[k]) by {
        assert(calculate_type_spec(g, scope, e.tail[k], fuel) is Ok);
        lemma_typed_universes_bare(g, scope, e.tail[k], fuel);
    }
}

/// Instantiating keeps universes bare.
pub proof fn lemma_instantiate_bare(
    g: Seq<ItemView>,
    t: ExprView,
    ctx: usize,
    args: Seq<ExprView>,
    size: usize,
    fuel: nat,
)
    requires
        bodies_bare(g),
        universes_bare(t),
        forall|k: int| 0 <= k < args.len() ==> universes_bare(#[trigger] args[k]),
        instantiate_spec(g, t, ctx, args, size, fuel) is Ok,
    ensures
        universes_bare(instantiate_spec(g, t, ctx, args, size, fuel)->Ok_0),
{
    lemma_subst_bare(t, ctx, 0, args, size as nat);
    lemma_eval_bare(g, subst_spec(t, ctx, 0, args, size as nat)->Ok_0, size as nat, fuel);
}

/// The type that is left when the arguments are consumed has its
/// universes bare, where the type to start from has.
pub proof fn lemma_apply_bare(
    g: Seq<ItemView>,
    scope: Seq<ExprView>,
    e: ExprView,
    at: Applied,
    checked: nat,
    fuel: nat,
)
    requires
        bodies_bare(g),
        universes_bare(e),
        universes_bare(at.actual),
        at.subbed <= checked <= e.tail.len(),
        apply_spec(g, scope, e, at, checked, fuel) is Ok,
    ensures
        universes_bare(apply_spec(g, scope, e, at, checked, fuel)->Ok_0),
    decreases e.tail.len() - checked,
{
    let size = scope.len() as usize;
    if checked >= e.tail.len() {
        let args = e.tail.subrange(at.subbed as int, e.tail.len() as int);
        assert forall|k: int| 0 <= k < args.len() implies universes_bare(#[trigger] args[k]) by {
            assert(args[k] == e.tail[at.subbed + k]);
        }
        lemma_instantiate_bare(g, at.actual, at.ctx, args, size, fuel);
    } else {
        let then = step_spec(g, scope, e, at, checked, fuel)->Ok_0;
        let ready = ensure_arrow(g, size, e, at, checked, fuel)->Ok_0;
        if at.actual.arrow_params.len() == 0 {
            let args = e.tail.subrange(at.subbed as int, checked as int);
            assert forall|k: int| 0 <= k < args.len() implies universes_bare(
                #[trigger] args[k],
            ) by {
                assert(args[k] == e.tail[at.subbed + k]);
            }
            lemma_instantiate_bare(g, at.actual, at.ctx, args, size, fuel);
        }
        assert(universes_bare(after_first(ready.actual))) by {
            let rest = after_first(ready.actual);
            assert forall|j: int| 0 <= j < rest.arrow_params.len() implies universes_bare(
                #[trigger] rest.arrow_params[j],
            ) by {
                assert(rest.arrow_params[j] == ready.actual.arrow_params[j + 1]);
            }
        }
        lemma_apply_bare(g, scope, e, then, checked + 1, fuel);
    }
}

/// The type of a term has its universes bare, where the table and the
/// types of the locals have.
pub proof fn lemma_type_bare(g: Seq<ItemView>, locals: Seq<ExprView>, e: ExprView, fuel: nat)
    requires
        items_bare(g),
        forall|i: int| 0 <= i < locals.len() ==> universes_bare(#[trigger] locals[i]),
        calculate_type_spec(g, locals, e, fuel) is Ok,
    ensures
        universes_bare(calculate_type_spec(g, locals, e, fuel)->Ok_0),
{
    lemma_typed_universes_bare(g, locals, e, fuel);
    let scope = locals + e.arrow_params;
    match e.head {
        Ident::Universe(l) => {},
        Ident::Local(i) => {
            assert(universes_bare(scope[i as int])) by {
                if i < locals.len() {
                    assert(scope[i as int] == locals[i as int]);
                } else {
                    assert(scope[i as int] == e.arrow_params[i - locals.len()]);
                }
            }
            lemma_apply_bare(
                g,
                scope,
                e,
                Applied { actual: scope[i as int], ctx: i, subbed: 0 },
                0,
                fuel,
            );
        },
        Ident::Global(i) => {
            lemma_apply_bare(
                g,
                scope,
                e,
                Applied { actual: g[i as int].ty, ctx: 0, subbed: 0 },
                0,
                fuel,
            );
        },
    }
}

/// An instantiation that comes to an end gives the same with any
/// greater fuel.
pub proof fn lemma_instantiate_fuel(
    g: Seq<ItemView>,
    t: ExprView,
    ctx: usize,
    args: Seq<ExprView>,
    size: usize,
    fuel: nat,
    more: nat,
)
    requires
        fuel <= more,
        instantiate_spec(g, t, ctx, args, size, fuel) is Ok,
    ensures
        instantiate_spec(g, t, ctx, args, size, more) == instantiate_spec(
            g,
            t,
            ctx,
            args,
            size,
            fuel,
        ),
{
    lemma_eval_fuel(g, subst_spec(t, ctx, 0, args, size as nat)->Ok_0, size as nat, fuel, more);
}

/// Fuel only limits: a term that has a type has the same type with any
/// greater fuel.
pub proof fn lemma_type_fuel(
    g: Seq<ItemView>,
    locals: Seq<ExprView>,
    e: ExprView,
    fuel: nat,
    more: nat,
)
    requires
        fuel <= more,
        calculate_type_spec(g, locals, e, fuel) is Ok,
    ensures
        calculate_type_spec(g, locals, e, more) == calculate_type_spec(g, locals, e, fuel),
    decreases e, 1nat, 0nat,
{
    let rs = sorts_each(g, locals, e.arrow_params, fuel);
    let rs2 = sorts_each(g, locals, e.arrow_params, more);
    lemma_sorts_each(g, locals, e.arrow_params, fuel);
    lemma_sorts_each(g, locals, e.arrow_params, more);
    lemma_collect_is_ok(rs);
    assert forall|j: int| 0 <= j < rs.len() implies rs2[j] == rs[j] by {
        assert(rs[j] is Ok);
        lemma_type_fuel(
            g,
            locals + e.arrow_params.subrange(0, j),
            e.arrow_params[j],
            fuel,
            more,
        );
    }
    assert(rs2 =~= rs);
    let scope = locals + e.arrow_params;
    match e.head {
        Ident::Universe(l) => {},
        Ident::Local(i) => {
            lemma_apply_fuel(
                g,
                scope,
                e,
                Applied { actual: scope[i as int], ctx: i, subbed: 0 },
                0,
                fuel,
                more,
            );
        },
        Ident::Global(i) => {
            lemma_apply_fuel(
                g,
                scope,
                e,
                Applied { actual: g[i as int].ty, ctx: 0, subbed: 0 },
                0,
                fuel,
                more,
            );
        },
    }
}

/// Arguments that pass give the same type with any greater fuel.
pub proof fn lemma_apply_fuel(
    g: Seq<ItemView>,
    scope: Seq<ExprView>,
    e: ExprView,
    at: Applied,
    checked: nat,
    fuel: nat,
    more: nat,
)
    requires
        fuel <= more,
        apply_spec(g, scope, e, at, checked, fuel) is Ok,
    ensures
        apply_spec(g, scope, e, at, checked, more) == apply_spec(g, scope, e, at, checked, fuel),
    decreases e, 0nat, e.tail.len() - checked,
{
    let size = scope.len() as usize;
    if checked >= e.tail.len() {
        lemma_instantiate_fuel(
            g,
            at.actual,
            at.ctx,
            e.tail.subrange(at.subbed as int, e.tail.len() as int),
            size,
            fuel,
            more,
        );
    } else {
        let then = step_spec(g, scope, e, at, checked, fuel)->Ok_0;
        if at.actual.arrow_params.len() == 0 {
            lemma_instantiate_fuel(
                g,
                at.actual,
                at.ctx,
                e.tail.subrange(at.subbed as int, checked as int),
                size,
                fuel,
                more,
            );
        }
        let ready = ensure_arrow(g, size, e, at, checked, fuel)->Ok_0;
        assert(ensure_arrow(g, size, e, at, checked, more) == Ok::<Applied, TypeErrorView>(ready));
        lemma_instantiate_fuel(
            g,
            ready.actual.arrow_params[0],
            ready.ctx,
            e.tail.subrange(ready.subbed as int, checked as int),
            size,
            fuel,
            more,
        );
        lemma_type_fuel(g, scope, e.tail[checked as int], fuel, more);
        assert(step_spec(g, scope, e, at, checked, more) == Ok::<Applied, TypeErrorView>(then));
        lemma_apply_fuel(g, scope, e, then, checked + 1, fuel, more);
    }
}

/// Puts `args` for the binders that follow the first `ctx` of `t`, and
/// evaluates under `size` binders.
pub fn instantiate(
    globals: &Vec<Item>,
    t: &Expr,
    ctx: usize,
    args: &[Expr],
    size: usize,
    fuel: usize,
) -> (res: Result<Expr, TypeError>)
    ensures
        checked_view(res) == instantiate_spec(
            item_views(globals@),
            t@,
            ctx,
            views(args@),
            size,
            fuel as nat,
        ),
{
    let s = match subst(t, ctx, 0, args, size) {
        Err(e) => {
            return Err(e);
        },
        Ok(s) => s,
    };
    eval_value(globals, &s, size, fuel)
}

/// Checks that each binder domain in `params` is a type, under `locals`
/// and the domains before it, and gives the domains back as a new frame.
fn check_binders(globals: &Vec<Item>, locals: &Context<Expr>, params: &Vec<Expr>, fuel: usize) -> (res:
    Result<Vec<Expr>, TypeError>)
    requires
        locals.well_formed(),
        locals@.len() + params.len() <= usize::MAX,
    ensures
        match collect(sorts_each(item_views(globals@), views(locals@), views(params@), fuel as nat)) {
            Ok(_) => res is Ok && views(res->Ok_0@) == views(params@),
            Err(x) => res is Err && res->Err_0@ == x,
        },
    decreases params, 0nat,
{
    let ghost g = item_views(globals@);
    let ghost outer = views(locals@);
    let ghost ps = views(params@);
    let ghost rs = sorts_each(g, outer, ps, fuel as nat);
    proof {
        lemma_sorts_each(g, outer, ps, fuel as nat);
    }
    let mut new_locals: Vec<Expr> = Vec::new();
    let mut j: usize = 0;
    while j < params.len()
        invariant
            j <= params.len(),
            locals.well_formed(),
            locals@.len() + params.len() <= usize::MAX,
            g == item_views(globals@),
            outer == views(locals@),
            ps == views(params@),
            new_locals.len() == j,
            views(new_locals@) =~= ps.subrange(0, j as int),
            rs == sorts_each(g, outer, ps, fuel as nat),
            rs.len() == params.len(),
            forall|k: int|
                0 <= k < ps.len() ==> #[trigger] rs[k] == sort_of(
                    calculate_type_spec(g, outer + ps.subrange(0, k), ps[k], fuel as nat),
                ),
            forall|k: int| 0 <= k < j ==> rs[k] is Ok,
        decreases params.len() - j,
    {
        {
            let scope = locals.push(new_locals.as_slice());
            assert(views(scope@) =~= outer + ps.subrange(0, j as int));
            match sort_check_expr(globals, &scope, &params[j], fuel) {
                Err(e) => {
                    proof {
                        lemma_collect_err(rs, j as int);
                    }
                    return Err(e);
                },
                Ok(_) => {},
            }
        }
        new_locals.push(params[j].clone());
        j += 1;
    }
    proof {
        let levels = Seq::new(rs.len(), |k: int| rs[k]->Ok_0);
        lemma_collect_ok(rs, levels);
        assert(ps.subrange(0, params.len() as int) =~= ps);
    }
    Ok(new_locals)
}

/// Checks the argument of `expr` at `checked` against the first binder of
/// `actual`, and gives the state for the arguments after it.
fn check_argument(
    globals: &Vec<Item>,
    scope: &Context<Expr>,
    expr: &Expr,
    actual: Expr,
    expr_ctx_size: usize,
    subbed: usize,
    checked: usize,
    fuel: usize,
) -> (res: Result<(Expr, usize, usize), TypeError>)
    requires
        scope.well_formed(),
        subbed <= checked < expr.tail.len(),
    ensures
        match step_spec(
            item_views(globals@),
            views(scope@),
            expr@,
            Applied { actual: actual@, ctx: expr_ctx_size, subbed: subbed as nat },
            checked as nat,
            fuel as nat,
        ) {
            Ok(then) => res is Ok && res->Ok_0.0@ == then.actual && res->Ok_0.1 == then.ctx
                && res->Ok_0.2 == then.subbed && res->Ok_0.2 <= checked,
            Err(x) => res is Err && res->Err_0@ == x,
        },
    decreases expr, 0nat,
{
    let mut actual = actual;
    let mut expr_ctx_size = expr_ctx_size;
    let mut subbed = subbed;
    let scope_size = scope.size();
    if actual.arrow_params.len() == 0 {
        let args = slice_subrange(expr.tail.as_slice(), subbed, checked);
        assert(views(args@) =~= expr@.tail.subrange(subbed as int, checked as int));
        let t = match instantiate(globals, &actual, expr_ctx_size, args, scope_size, fuel) {
            Err(e) => {
                return Err(e);
            },
            Ok(t) => t,
        };
        if t.arrow_params.len() == 0 {
            return Err(TypeError::NotAFunction { ty: t });
        }
        actual = t;
        subbed = checked;
        expr_ctx_size = scope_size;
    }
    let ghost ready = actual@;
    let arg_expected_base = actual.arrow_params.remove(0);
    assert(actual@.arrow_params =~= ready.arrow_params.remove(0));
    assert(actual@.tail =~= ready.tail);
    assert(actual@ == after_first(ready));
    assert(arg_expected_base@ == ready.arrow_params[0]);
    let args = slice_subrange(expr.tail.as_slice(), subbed, checked);
    assert(views(args@) =~= expr@.tail.subrange(subbed as int, checked as int));
    let arg_expected = match instantiate(
        globals,
        &arg_expected_base,
        expr_ctx_size,
        args,
        scope_size,
        fuel,
    ) {
        Err(e) => {
            return Err(e);
        },
        Ok(t) => t,
    };
    match type_check_expr(globals, scope, &expr.tail[checked], &arg_expected, fuel) {
        Err(e) => {
            return Err(e);
        },
        Ok(_) => {},
    }
    Ok((actual, expr_ctx_size, subbed))
}

/// Checks the arguments of `expr` against the binders of `actual`, the
/// type of its head, and gives the type that is left.
fn apply_arguments(
    globals: &Vec<Item>,
    scope: &Context<Expr>,
    expr: &Expr,
    head_type: Expr,
    head_ctx: usize,
    fuel: usize,
) -> (res: Result<Expr, TypeError>)
    requires
        scope.well_formed(),
    ensures
        checked_view(res) == apply_spec(
            item_views(globals@),
            views(scope@),
            expr@,
            Applied { actual: head_type@, ctx: head_ctx, subbed: 0 },
            0,
            fuel as nat,
        ),
    decreases expr, 1nat,
{
    let ghost g = item_views(globals@);
    let ghost inner = views(scope@);
    let ghost start = Applied { actual: head_type@, ctx: head_ctx, subbed: 0 };
    let ghost goal = apply_spec(g, inner, expr@, start, 0, fuel as nat);
    let scope_size = scope.size();
    let mut actual = head_type;
    let mut expr_ctx_size = head_ctx;
    let mut checked: usize = 0;
    let mut subbed: usize = 0;
    while checked < expr.tail.len()
        invariant
            subbed <= checked <= expr.tail.len(),
            scope.well_formed(),
            views(scope@) == inner,
            inner.len() == scope_size,
            g == item_views(globals@),
            start == (Applied { actual: head_type@, ctx: head_ctx, subbed: 0 }),
            goal == apply_spec(g, inner, expr@, start, 0, fuel as nat),
            goal == apply_spec(
                g,
                inner,
                expr@,
                Applied { actual: actual@, ctx: expr_ctx_size, subbed: subbed as nat },
                checked as nat,
                fuel as nat,
            ),
        decreases expr.tail.len() - checked,
    {
        match check_argument(
            globals,
            scope,
            expr,
            actual,
            expr_ctx_size,
            subbed,
            checked,
            fuel,
        ) {
            Err(e) => {
                return Err(e);
            },
            Ok(then) => {
                actual = then.0;
                expr_ctx_size = then.1;
                subbed = then.2;
            },
        }
        checked += 1;
    }
    let args = slice_subrange(expr.tail.as_slice(), subbed, checked);
    assert(views(args@) =~= expr@.tail.subrange(subbed as int, expr@.tail.len() as int));
    let t = match instantiate(globals, &actual, expr_ctx_size, args, scope_size, fuel) {
        Err(e) => {
            return Err(e);
        },
        Ok(t) => t,
    };
    if expr.arrow_params.len() > 0 && t.universe_level().is_none() {
        return Err(TypeError::ExpectedUniverseResult);
    }
    Ok(t)
}

/// The type of `expr` under `locals`.
pub fn calculate_type(globals: &Vec<Item>, locals: &Context<Expr>, expr: &Expr, fuel: usize) -> (res:
    Result<Expr, TypeError>)
    requires
        locals.well_formed(),
    ensures
        checked_view(res) == calculate_type_spec(
            item_views(globals@),
            views(locals@),
            expr@,
            fuel as nat,
        ),
        res is Ok ==> universes_bare(expr@),
        res is Ok && items_bare(item_views(globals@)) && (forall|i: int|
            0 <= i < locals@.len() ==> universes_bare(#[trigger] views(locals@)[i]))
            ==> universes_bare(res->Ok_0@),
    decreases expr, 2nat,
{
    let ghost g = item_views(globals@);
    let ghost outer = views(locals@);
    let ghost goal = calculate_type_spec(g, outer, expr@, fuel as nat);
    proof {
        if goal is Ok {
            lemma_typed_universes_bare(g, outer, expr@, fuel as nat);
            if items_bare(g) && (forall|i: int|
                0 <= i < outer.len() ==> universes_bare(#[trigger] outer[i])) {
                lemma_type_bare(g, outer, expr@, fuel as nat);
            }
        }
    }
    let base_size = locals.size();
    if expr.arrow_params.len() > usize::MAX - base_size {
        return Err(TypeError::IndexOverflow);
    }
    let new_locals = match check_binders(globals, locals, &expr.arrow_params, fuel) {
        Err(e) => {
            return Err(e);
        },
        Ok(v) => v,
    };
    let scope = locals.push(new_locals.as_slice());
    let scope_size: usize = base_size + expr.arrow_params.len();
    let ghost inner = outer + expr@.arrow_params;
    assert(views(scope@) =~= inner);
    let (actual, expr_ctx_size): (Expr, usize) = match expr.head {
        Ident::Local(i) => {
            if i >= scope_size {
                return Err(TypeError::UnboundLocal { index: i });
            }
            (scope.value_from_index(i).clone(), i)
        },
        Ident::Global(i) => {
            if i >= globals.len() {
                return Err(TypeError::UnboundGlobal { index: i });
            }
            (globals[i].ty.clone(), 0)
        },
        Ident::Universe(l) => {
            if expr.tail.len() > 0 {
                return Err(TypeError::UniverseApplied);
            }
            if l == usize::MAX {
                return Err(TypeError::IndexOverflow);
            }
            return Ok(Expr::universe(l + 1));
        },
    };
    apply_arguments(globals, &scope, expr, actual, expr_ctx_size, fuel)
}

/// The level of the universe that `expr` inhabits.
pub fn sort_check_expr(globals: &Vec<Item>, locals: &Context<Expr>, expr: &Expr, fuel: usize) -> (res:
    Result<usize, TypeError>)
    requires
        locals.well_formed(),
    ensures
        level_view(res) == sort_check_spec(
            item_views(globals@),
            views(locals@),
            expr@,
            fuel as nat,
        ),
        res is Ok ==> universes_bare(expr@),
    decreases expr, 3nat,
{
    let actual = match calculate_type(globals, locals, expr, fuel) {
        Err(e) => {
            return Err(e);
        },
        Ok(t) => t,
    };
    match actual.universe_level() {
        Some(l) => Ok(l),
        None => Err(TypeError::ExpectedUniverse),
    }
}

/// Checks that `expr` has the type `expected`.
pub fn type_check_expr(
    globals: &Vec<Item>,
    locals: &Context<Expr>,
    expr: &Expr,
    expected: &Expr,
    fuel: usize,
) -> (res: Result<(), TypeError>)
    requires
        locals.well_formed(),
    ensures
        unit_view(res) == type_check_spec(
            item_views(globals@),
            views(locals@),
            expr@,
            expected@,
            fuel as nat,
        ),
        res is Ok ==> universes_bare(expr@),
    decreases expr, 3nat,
{
    let actual = match calculate_type(globals, locals, expr, fuel) {
        Err(e) => {
            return Err(e);
        },
        Ok(t) => t,
    };
    assert_type(expr, &actual, expected)
}

/// Compares the type found for `expr` with the type asked for.
pub fn assert_type(expr: &Expr, actual: &Expr, expected: &Expr) -> (res: Result<(), TypeError>)
    ensures
        unit_view(res) == matched(expr@, Ok(actual@), expected@),
{
    if !actual.equals(expected) {
        return Err(
            TypeError::TypeMismatch {
                expr: expr.clone(),
                actual: actual.clone(),
                expected: expected.clone(),
            },
        );
    }
    Ok(())
}

} // verus!
