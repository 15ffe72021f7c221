//! Weak-head normalisation by unfolding saturated global definitions.

use crate::error::{checked_view, list_view, unit_view, Checked, TypeError, TypeErrorView};
use crate::globals::{bodies_bare, bodies_below, item_views, Item, ItemView};
use crate::outcome::{collect, lemma_collect_err, lemma_collect_is_ok, lemma_collect_ok};
use crate::subst::{
    count_add, counts, lemma_subst_bare, lemma_subst_below, subst_by, subst_spec,
};
use crate::term::{
    globals_below, lemma_insert_bare, lemma_insert_below, parts_bare, parts_below, universes_bare,
    views, Expr, ExprView, Ident,
};
use vstd::prelude::*;
use vstd::slice::slice_subrange;

verus! {

broadcast use crate::term::lemma_view;

/// The definition that the head of `e` unfolds to, where the head is a
/// defined global with enough arguments: the arity and the body.
pub open spec fn redex(g: Seq<ItemView>, e: ExprView) -> Option<(usize, ExprView)> {
    match e.head {
        Ident::Global(i) => if i < g.len() {
            match g[i as int].def {
                Some(d) => if e.tail.len() >= d.0 {
                    Some(d)
                } else {
                    None
                },
                None => None,
            }
        } else {
            None
        },
        _ => None,
    }
}

/// The head of `e` names no entry of the table.
pub open spec fn dangling(g: Seq<ItemView>, e: ExprView) -> bool {
    e.head matches Ident::Global(i) && i >= g.len()
}

/// The normal form of `e`, which stands under `ctx` binders. The binder
/// domains are evaluated first, each under one binder more than the one
/// before, then the arguments, then the head is unfolded as long as it is
/// a defined global with enough arguments. `fuel` bounds how deep
/// unfoldings may nest.
pub open spec fn eval_spec(g: Seq<ItemView>, e: ExprView, ctx: nat, fuel: nat) -> Checked
    decreases fuel, 1nat, e,
{
    match collect(eval_each(g, e.arrow_params, ctx, true, fuel)) {
        Err(x) => Err(x),
        Ok(ps) => {
            let inner = ctx + e.arrow_params.len();
            match collect(eval_each(g, e.tail, inner, false, fuel)) {
                Err(x) => Err(x),
                Ok(ts) => unfold_spec(
                    g,
                    ExprView { arrow_params: ps, head: e.head, tail: ts },
                    inner,
                    fuel,
                ),
            }
        },
    }
}

/// `eval_spec` on each term of a sequence. With `widen`, the term at
/// position `j` stands under `j` binders more.
pub open spec fn eval_each(
    g: Seq<ItemView>,
    s: Seq<ExprView>,
    ctx: nat,
    widen: bool,
    fuel: nat,
) -> Seq<Checked>
    decreases fuel, 1nat, s,
{
    Seq::new(
        s.len(),
        |j: int|
            if 0 <= j < s.len() {
                eval_spec(
                    g,
                    s[j],
                    if widen {
                        (ctx + j) as nat
                    } else {
                        ctx
                    },
                    fuel,
                )
            } else {
                Err(TypeErrorView::IndexOverflow)
            },
    )
}

/// The term whose head is unfolded next: `e` without the arguments that
/// the definition takes.
pub open spec fn shell(e: ExprView, arity: usize) -> ExprView {
    ExprView {
        arrow_params: e.arrow_params,
        head: e.head,
        tail: e.tail.subrange(arity as int, e.tail.len() as int),
    }
}

/// The head of `e` unfolded until it is stuck. The binder domains and the
/// arguments of `e` are taken as evaluated, and `inner` counts the binders
/// above the head, those of `e` included.
pub open spec fn unfold_spec(g: Seq<ItemView>, e: ExprView, inner: nat, fuel: nat) -> Checked
    decreases fuel, 0nat, e,
{
    if dangling(g, e) {
        Err(TypeErrorView::UnboundGlobal { index: e.head->Global_0 })
    } else {
        match redex(g, e) {
            None => Ok(e),
            Some(d) => if fuel == 0 {
                Err(TypeErrorView::OutOfFuel)
            } else {
                match subst_spec(d.1, 0, 0, e.tail.subrange(0, d.0 as int), inner) {
                    Err(x) => Err(x),
                    Ok(r) => match collect(
                        eval_each(g, r.arrow_params, inner, true, (fuel - 1) as nat),
                    ) {
                        Err(x) => Err(x),
                        Ok(ps) => {
                            let deeper = inner + r.arrow_params.len();
                            match collect(eval_each(g, r.tail, deeper, false, (fuel - 1) as nat)) {
                                Err(x) => Err(x),
                                Ok(ts) => match shell(e, d.0).insert(
                                    ExprView { arrow_params: ps, head: r.head, tail: ts },
                                ) {
                                    Err(x) => Err(x),
                                    Ok(next) => unfold_spec(g, next, deeper, (fuel - 1) as nat),
                                },
                            }
                        },
                    },
                }
            },
        }
    }
}

/// `eval_each`, element by element.
pub proof fn lemma_eval_each(g: Seq<ItemView>, s: Seq<ExprView>, ctx: nat, widen: bool, fuel: nat)
    ensures
        eval_each(g, s, ctx, widen, fuel).len() == s.len(),
        forall|j: int|
            0 <= j < s.len() ==> #[trigger] eval_each(g, s, ctx, widen, fuel)[j] == eval_spec(
                g,
                s[j],
                if widen {
                    (ctx + j) as nat
                } else {
                    ctx
                },
                fuel,
            ),
{
    reveal_with_fuel(eval_each, 2);
}

/// Evaluates each term of `xs`. With `incr`, the term at position `j`
/// stands under `j` binders more than `ctx`.
fn eval_on(
    globals: &Vec<Item>,
    xs: &Vec<Expr>,
    ctx: Option<usize>,
    incr: bool,
    fuel: usize,
    Ghost(c): Ghost<nat>,
) -> (res: Result<Vec<Expr>, TypeError>)
    requires
        counts(ctx, c),
    ensures
        list_view(res) == collect(eval_each(item_views(globals@), views(xs@), c, incr, fuel as nat)),
    decreases fuel, 1nat, xs,
{
    let ghost g = item_views(globals@);
    let ghost rs = eval_each(g, views(xs@), c, incr, fuel as nat);
    proof {
        lemma_eval_each(g, views(xs@), c, incr, fuel as nat);
    }
    let mut out: Vec<Expr> = Vec::new();
    let mut i: usize = 0;
    while i < xs.len()
        invariant
            i <= xs.len(),
            out.len() == i,
            counts(ctx, c),
            g == item_views(globals@),
            rs == eval_each(g, views(xs@), c, incr, fuel as nat),
            rs.len() == xs.len(),
            forall|j: int|
                0 <= j < xs.len() ==> #[trigger] rs[j] == eval_spec(
                    g,
                    xs@[j]@,
                    if incr {
                        (c + j) as nat
                    } else {
                        c
                    },
                    fuel as nat,
                ),
            forall|j: int| 0 <= j < i ==> rs[j] == Ok::<ExprView, TypeErrorView>(out@[j]@),
        decreases xs.len() - i,
    {
        let here = if incr {
            count_add(ctx, i, Ghost(c))
        } else {
            ctx
        };
        let ghost at: nat = if incr {
            (c + i) as nat
        } else {
            c
        };
        match eval_at(globals, &xs[i], here, fuel, Ghost(at)) {
            Err(e) => {
                proof {
                    lemma_collect_err(rs, i as int);
                }
                return Err(e);
            },
            Ok(t) => {
                out.push(t);
            },
        }
        i += 1;
    }
    proof {
        lemma_collect_ok(rs, views(out@));
    }
    Ok(out)
}

/// The normal form of `expr` under a count of binders that may have left
/// the machine's range.
fn eval_at(
    globals: &Vec<Item>,
    expr: &Expr,
    ctx: Option<usize>,
    fuel: usize,
    Ghost(c): Ghost<nat>,
) -> (res: Result<Expr, TypeError>)
    requires
        counts(ctx, c),
    ensures
        checked_view(res) == eval_spec(item_views(globals@), expr@, c, fuel as nat),
    decreases fuel, 1nat, expr,
{
    let ghost g = item_views(globals@);
    let arrow_params = match eval_on(globals, &expr.arrow_params, ctx, true, fuel, Ghost(c)) {
        Err(e) => {
            return Err(e);
        },
        Ok(v) => v,
    };
    let mut inner = count_add(ctx, expr.arrow_params.len(), Ghost(c));
    let ghost mut within: nat = (c + expr@.arrow_params.len()) as nat;
    let tail = match eval_on(globals, &expr.tail, inner, false, fuel, Ghost(within)) {
        Err(e) => {
            return Err(e);
        },
        Ok(v) => v,
    };
    let mut cur = Expr { arrow_params, head: expr.head, tail };
    assert(cur@.arrow_params =~= views(arrow_params@));
    assert(cur@.tail =~= views(tail@));
    let ghost goal = eval_spec(g, expr@, c, fuel as nat);
    assert(goal == unfold_spec(g, cur@, within, fuel as nat));
    let mut left: usize = fuel;
    loop
        invariant
            left <= fuel,
            counts(inner, within),
            g == item_views(globals@),
            goal == eval_spec(g, expr@, c, fuel as nat),
            unfold_spec(g, cur@, within, left as nat) == goal,
        decreases left,
    {
        let i: usize = match cur.head {
            Ident::Global(i) => i,
            _ => {
                return Ok(cur);
            },
        };
        if i >= globals.len() {
            return Err(TypeError::UnboundGlobal { index: i });
        }
        let (n, body): (usize, &Expr) = match &globals[i].def {
            None => {
                return Ok(cur);
            },
            Some(d) => (d.0, &d.1),
        };
        if cur.tail.len() < n {
            return Ok(cur);
        }
        assert(redex(g, cur@) == Some((n, body@)));
        if left == 0 {
            return Err(TypeError::OutOfFuel);
        }
        let ghost before = cur@;
        let args = slice_subrange(cur.tail.as_slice(), 0, n);
        assert(views(args@) =~= before.tail.subrange(0, n as int));
        let result = match subst_by(body, 0, Some(0), args, inner, Ghost(0), Ghost(within)) {
            Err(e) => {
                return Err(e);
            },
            Ok(r) => r,
        };
        let ps = match eval_on(
            globals,
            &result.arrow_params,
            inner,
            true,
            left - 1,
            Ghost(within),
        ) {
            Err(e) => {
                return Err(e);
            },
            Ok(v) => v,
        };
        let deeper = count_add(inner, result.arrow_params.len(), Ghost(within));
        let ghost beneath: nat = (within + result@.arrow_params.len()) as nat;
        let ts = match eval_on(globals, &result.tail, deeper, false, left - 1, Ghost(beneath)) {
            Err(e) => {
                return Err(e);
            },
            Ok(v) => v,
        };
        let evaluated = Expr { arrow_params: ps, head: result.head, tail: ts };
        assert(evaluated@.arrow_params =~= views(ps@));
        assert(evaluated@.tail =~= views(ts@));
        let rest = cur.tail.split_off(n);
        cur.tail = rest;
        assert(cur@.tail =~= before.tail.subrange(n as int, before.tail.len() as int));
        assert(cur@.arrow_params =~= before.arrow_params);
        assert(cur@ == shell(before, n));
        match cur.insert(evaluated) {
            Err(e) => {
                return Err(e);
            },
            Ok(_) => {},
        }
        inner = deeper;
        proof {
            within = beneath;
        }
        left = left - 1;
    }
}

/// The normal form of `expr`, as a new term.
pub fn eval_value(globals: &Vec<Item>, expr: &Expr, ctx_size: usize, fuel: usize) -> (res: Result<
    Expr,
    TypeError,
>)
    ensures
        checked_view(res) == eval_spec(item_views(globals@), expr@, ctx_size as nat, fuel as nat),
{
    eval_at(globals, expr, Some(ctx_size), fuel, Ghost(ctx_size as nat))
}

/// Brings `expr` to normal form in place. On failure it is left as it was.
pub fn eval(globals: &Vec<Item>, expr: &mut Expr, ctx_size: usize, fuel: usize) -> (res: Result<
    (),
    TypeError,
>)
    ensures
        match eval_spec(item_views(globals@), old(expr)@, ctx_size as nat, fuel as nat) {
            Ok(m) => res is Ok && final(expr)@ == m,
            Err(x) => unit_view(res) == Err::<(), TypeErrorView>(x) && final(expr)@ == old(expr)@,
        },
{
    match eval_value(globals, expr, ctx_size, fuel) {
        Ok(r) => {
            *expr = r;
            Ok(())
        },
        Err(e) => Err(e),
    }
}

/// Whether the head of `e` is stuck: it names an entry of the table, if
/// it names one, and it does not unfold.
pub open spec fn stuck(g: Seq<ItemView>, e: ExprView) -> bool {
    !dangling(g, e) && redex(g, e) is None
}

/// Whether every binder domain and argument of `e` is normal.
pub open spec fn parts_normal(g: Seq<ItemView>, e: ExprView) -> bool
    decreases e, 0nat,
{
    &&& forall|j: int| 0 <= j < e.arrow_params.len() ==> normal(g, #[trigger] e.arrow_params[j])
    &&& forall|j: int| 0 <= j < e.tail.len() ==> normal(g, #[trigger] e.tail[j])
}

/// Whether `e` is normal: no head in it unfolds.
pub open spec fn normal(g: Seq<ItemView>, e: ExprView) -> bool
    decreases e, 1nat,
{
    stuck(g, e) && parts_normal(g, e)
}

/// A normal term evaluates to itself, under any number of binders and
/// with any fuel.
pub proof fn lemma_normal_stable(g: Seq<ItemView>, e: ExprView, ctx: nat, fuel: nat)
    requires
        normal(g, e),
    ensures
        eval_spec(g, e, ctx, fuel) == Ok::<ExprView, TypeErrorView>(e),
    decreases e,
{
    let inner = ctx + e.arrow_params.len();
    lemma_eval_each(g, e.arrow_params, ctx, true, fuel);
    lemma_eval_each(g, e.tail, inner, false, fuel);
    let rp = eval_each(g, e.arrow_params, ctx, true, fuel);
    let rt = eval_each(g, e.tail, inner, false, fuel);
    assert forall|j: int| 0 <= j < rp.len() implies rp[j] == Ok::<ExprView, TypeErrorView>(
        e.arrow_params[j],
    ) by {
        lemma_normal_stable(g, e.arrow_params[j], (ctx + j) as nat, fuel);
    }
    assert forall|j: int| 0 <= j < rt.len() implies rt[j] == Ok::<ExprView, TypeErrorView>(
        e.tail[j],
    ) by {
        lemma_normal_stable(g, e.tail[j], inner, fuel);
    }
    lemma_collect_ok(rp, e.arrow_params);
    lemma_collect_ok(rt, e.tail);
    assert(e == ExprView { arrow_params: e.arrow_params, head: e.head, tail: e.tail });
}

/// What evaluation gives is normal.
pub proof fn lemma_eval_normal(g: Seq<ItemView>, e: ExprView, ctx: nat, fuel: nat)
    requires
        eval_spec(g, e, ctx, fuel) is Ok,
    ensures
        normal(g, eval_spec(g, e, ctx, fuel)->Ok_0),
    decreases fuel, 1nat, e,
{
    let inner = ctx + e.arrow_params.len();
    lemma_eval_each(g, e.arrow_params, ctx, true, fuel);
    lemma_eval_each(g, e.tail, inner, false, fuel);
    let rp = eval_each(g, e.arrow_params, ctx, true, fuel);
    let rt = eval_each(g, e.tail, inner, false, fuel);
    lemma_collect_is_ok(rp);
    lemma_collect_is_ok(rt);
    let ps = collect(rp)->Ok_0;
    let ts = collect(rt)->Ok_0;
    let mid = ExprView { arrow_params: ps, head: e.head, tail: ts };
    assert forall|j: int| 0 <= j < ps.len() implies normal(g, #[trigger] mid.arrow_params[j]) by {
        assert(rp[j] == Ok::<ExprView, TypeErrorView>(ps[j]));
        lemma_eval_normal(g, e.arrow_params[j], (ctx + j) as nat, fuel);
    }
    assert forall|j: int| 0 <= j < ts.len() implies normal(g, #[trigger] mid.tail[j]) by {
        assert(rt[j] == Ok::<ExprView, TypeErrorView>(ts[j]));
        lemma_eval_normal(g, e.tail[j], inner, fuel);
    }
    lemma_unfold_normal(g, mid, inner, fuel);
}

/// What unfolding the head of a term with normal parts gives is normal.
pub proof fn lemma_unfold_normal(g: Seq<ItemView>, e: ExprView, inner: nat, fuel: nat)
    requires
        parts_normal(g, e),
        unfold_spec(g, e, inner, fuel) is Ok,
    ensures
        normal(g, unfold_spec(g, e, inner, fuel)->Ok_0),
    decreases fuel, 0nat, e,
{
    match redex(g, e) {
        None => {},
        Some(d) => {
            let less = (fuel - 1) as nat;
            let r = subst_spec(d.1, 0, 0, e.tail.subrange(0, d.0 as int), inner)->Ok_0;
            let deeper = inner + r.arrow_params.len();
            lemma_eval_each(g, r.arrow_params, inner, true, less);
            lemma_eval_each(g, r.tail, deeper, false, less);
            let rp = eval_each(g, r.arrow_params, inner, true, less);
            let rt = eval_each(g, r.tail, deeper, false, less);
            lemma_collect_is_ok(rp);
            lemma_collect_is_ok(rt);
            let ps = collect(rp)->Ok_0;
            let ts = collect(rt)->Ok_0;
            let rest = shell(e, d.0);
            let next = rest.insert(ExprView { arrow_params: ps, head: r.head, tail: ts })->Ok_0;
            assert(next.arrow_params =~= ps + rest.arrow_params);
            assert(next.tail =~= ts + rest.tail);
            assert forall|j: int| 0 <= j < next.arrow_params.len() implies normal(
                g,
                #[trigger] next.arrow_params[j],
            ) by {
                if j < ps.len() {
                    assert(rp[j] == Ok::<ExprView, TypeErrorView>(ps[j]));
                    lemma_eval_normal(g, r.arrow_params[j], (inner + j) as nat, less);
                } else {
                    assert(next.arrow_params[j] == e.arrow_params[j - ps.len()]);
                }
            }
            assert forall|j: int| 0 <= j < next.tail.len() implies normal(
                g,
                #[trigger] next.tail[j],
            ) by {
                if j < ts.len() {
                    assert(rt[j] == Ok::<ExprView, TypeErrorView>(ts[j]));
                    lemma_eval_normal(g, r.tail[j], deeper, less);
                } else {
                    let k = j - ts.len();
                    assert(next.tail[j] == rest.tail[k]);
                    assert(rest.tail[k] == e.tail[d.0 + k]);
                }
            }
            lemma_unfold_normal(g, next, deeper, less);
        },
    }
}

/// Evaluation is idempotent: what it gives evaluates to itself, under
/// any number of binders and with any fuel.
pub proof fn lemma_eval_idempotent(
    g: Seq<ItemView>,
    e: ExprView,
    ctx: nat,
    fuel: nat,
    again: nat,
)
    requires
        eval_spec(g, e, ctx, fuel) is Ok,
    ensures
        eval_spec(g, eval_spec(g, e, ctx, fuel)->Ok_0, ctx, again) == eval_spec(g, e, ctx, fuel),
{
    lemma_eval_normal(g, e, ctx, fuel);
    lemma_normal_stable(g, eval_spec(g, e, ctx, fuel)->Ok_0, ctx, again);
}

/// Evaluation keeps universes bare, where the bodies of the table have
/// them bare.
pub proof fn lemma_eval_bare(g: Seq<ItemView>, e: ExprView, ctx: nat, fuel: nat)
    requires
        bodies_bare(g),
        universes_bare(e),
        eval_spec(g, e, ctx, fuel) is Ok,
    ensures
        universes_bare(eval_spec(g, e, ctx, fuel)->Ok_0),
    decreases fuel, 1nat, e,
{
    let inner = ctx + e.arrow_params.len();
    lemma_eval_each(g, e.arrow_params, ctx, true, fuel);
    lemma_eval_each(g, e.tail, inner, false, fuel);
    let rp = eval_each(g, e.arrow_params, ctx, true, fuel);
    let rt = eval_each(g, e.tail, inner, false, fuel);
    lemma_collect_is_ok(rp);
    lemma_collect_is_ok(rt);
    let ps = collect(rp)->Ok_0;
    let ts = collect(rt)->Ok_0;
    let mid = ExprView { arrow_params: ps, head: e.head, tail: ts };
    assert forall|j: int| 0 <= j < ps.len() implies universes_bare(
        #[trigger] mid.arrow_params[j],
    ) by {
        assert(rp[j] == Ok::<ExprView, TypeErrorView>(ps[j]));
        lemma_eval_bare(g, e.arrow_params[j], (ctx + j) as nat, fuel);
    }
    assert forall|j: int| 0 <= j < ts.len() implies universes_bare(#[trigger] mid.tail[j]) by {
        assert(rt[j] == Ok::<ExprView, TypeErrorView>(ts[j]));
        lemma_eval_bare(g, e.tail[j], inner, fuel);
    }
    lemma_unfold_bare(g, mid, inner, fuel);
}

/// Unfolding the head keeps universes bare.
pub proof fn lemma_unfold_bare(g: Seq<ItemView>, e: ExprView, inner: nat, fuel: nat)
    requires
        bodies_bare(g),
        universes_bare(e),
        unfold_spec(g, e, inner, fuel) is Ok,
    ensures
        universes_bare(unfold_spec(g, e, inner, fuel)->Ok_0),
    decreases fuel, 0nat, e,
{
    match redex(g, e) {
        None => {},
        Some(d) => {
            let less = (fuel - 1) as nat;
            let args = e.tail.subrange(0, d.0 as int);
            let r = subst_spec(d.1, 0, 0, args, inner)->Ok_0;
            assert(universes_bare(d.1)) by {
                let i = e.head->Global_0;
                assert(g[i as int].def == Some(d));
            }
            assert forall|k: int| 0 <= k < args.len() implies universes_bare(
                #[trigger] args[k],
            ) by {
                assert(args[k] == e.tail[k]);
            }
            lemma_subst_bare(d.1, 0, 0, args, inner);
            let deeper = inner + r.arrow_params.len();
            lemma_eval_each(g, r.arrow_params, inner, true, less);
            lemma_eval_each(g, r.tail, deeper, false, less);
            let rp = eval_each(g, r.arrow_params, inner, true, less);
            let rt = eval_each(g, r.tail, deeper, false, less);
            lemma_collect_is_ok(rp);
            lemma_collect_is_ok(rt);
            let ps = collect(rp)->Ok_0;
            let ts = collect(rt)->Ok_0;
            let evaluated = ExprView { arrow_params: ps, head: r.head, tail: ts };
            assert forall|j: int| 0 <= j < ps.len() implies universes_bare(
                #[trigger] evaluated.arrow_params[j],
            ) by {
                assert(rp[j] == Ok::<ExprView, TypeErrorView>(ps[j]));
                lemma_eval_bare(g, r.arrow_params[j], (inner + j) as nat, less);
            }
            assert forall|j: int| 0 <= j < ts.len() implies universes_bare(
                #[trigger] evaluated.tail[j],
            ) by {
                assert(rt[j] == Ok::<ExprView, TypeErrorView>(ts[j]));
                lemma_eval_bare(g, r.tail[j], deeper, less);
            }
            let rest = shell(e, d.0);
            assert(parts_bare(rest)) by {
                assert forall|j: int| 0 <= j < rest.tail.len() implies universes_bare(
                    #[trigger] rest.tail[j],
                ) by {
                    assert(rest.tail[j] == e.tail[d.0 + j]);
                }
            }
            lemma_insert_bare(rest, evaluated);
            lemma_unfold_bare(g, rest.insert(evaluated)->Ok_0, deeper, less);
        },
    }
}

/// Evaluation brings in no global but those of the term and of the
/// bodies of the table.
pub proof fn lemma_eval_below(g: Seq<ItemView>, e: ExprView, ctx: nat, fuel: nat, n: nat)
    requires
        bodies_below(g, n),
        globals_below(e, n),
        eval_spec(g, e, ctx, fuel) is Ok,
    ensures
        globals_below(eval_spec(g, e, ctx, fuel)->Ok_0, n),
    decreases fuel, 1nat, e,
{
    let inner = ctx + e.arrow_params.len();
    lemma_eval_each(g, e.arrow_params, ctx, true, fuel);
    lemma_eval_each(g, e.tail, inner, false, fuel);
    let rp = eval_each(g, e.arrow_params, ctx, true, fuel);
    let rt = eval_each(g, e.tail, inner, false, fuel);
    lemma_collect_is_ok(rp);
    lemma_collect_is_ok(rt);
    let ps = collect(rp)->Ok_0;
    let ts = collect(rt)->Ok_0;
    let mid = ExprView { arrow_params: ps, head: e.head, tail: ts };
    assert forall|j: int| 0 <= j < ps.len() implies globals_below(
        #[trigger] mid.arrow_params[j],
        n,
    ) by {
        assert(rp[j] == Ok::<ExprView, TypeErrorView>(ps[j]));
        lemma_eval_below(g, e.arrow_params[j], (ctx + j) as nat, fuel, n);
    }
    assert forall|j: int| 0 <= j < ts.len() implies globals_below(#[trigger] mid.tail[j], n) by {
        assert(rt[j] == Ok::<ExprView, TypeErrorView>(ts[j]));
        lemma_eval_below(g, e.tail[j], inner, fuel, n);
    }
    lemma_unfold_below(g, mid, inner, fuel, n);
}

/// Unfolding the head brings in no global but those of the term and of
/// the bodies of the table.
pub proof fn lemma_unfold_below(g: Seq<ItemView>, e: ExprView, inner: nat, fuel: nat, n: nat)
    requires
        bodies_below(g, n),
        globals_below(e, n),
        unfold_spec(g, e, inner, fuel) is Ok,
    ensures
        globals_below(unfold_spec(g, e, inner, fuel)->Ok_0, n),
    decreases fuel, 0nat, e,
{
    match redex(g, e) {
        None => {},
        Some(d) => {
            let less = (fuel - 1) as nat;
            let args = e.tail.subrange(0, d.0 as int);
            let r = subst_spec(d.1, 0, 0, args, inner)->Ok_0;
            assert(globals_below(d.1, n)) by {
                let i = e.head->Global_0;
                assert(g[i as int].def == Some(d));
            }
            assert forall|k: int| 0 <= k < args.len() implies globals_below(
                #[trigger] args[k],
                n,
            ) by {
                assert(args[k] == e.tail[k]);
            }
            lemma_subst_below(d.1, 0, 0, args, inner, n);
            let deeper = inner + r.arrow_params.len();
            lemma_eval_each(g, r.arrow_params, inner, true, less);
            lemma_eval_each(g, r.tail, deeper, false, less);
            let rp = eval_each(g, r.arrow_params, inner, true, less);
            let rt = eval_each(g, r.tail, deeper, false, less);
            lemma_collect_is_ok(rp);
            lemma_collect_is_ok(rt);
            let ps = collect(rp)->Ok_0;
            let ts = collect(rt)->Ok_0;
            let evaluated = ExprView { arrow_params: ps, head: r.head, tail: ts };
            assert forall|j: int| 0 <= j < ps.len() implies globals_below(
                #[trigger] evaluated.arrow_params[j],
                n,
            ) by {
                assert(rp[j] == Ok::<ExprView, TypeErrorView>(ps[j]));
                lemma_eval_below(g, r.arrow_params[j], (inner + j) as nat, less, n);
            }
            assert forall|j: int| 0 <= j < ts.len() implies globals_below(
                #[trigger] evaluated.tail[j],
                n,
            ) by {
                assert(rt[j] == Ok::<ExprView, TypeErrorView>(ts[j]));
                lemma_eval_below(g, r.tail[j], deeper, less, n);
            }
            let rest = shell(e, d.0);
            assert(parts_below(rest, n)) by {
                assert forall|j: int| 0 <= j < rest.tail.len() implies globals_below(
                    #[trigger] rest.tail[j],
                    n,
                ) by {
                    assert(rest.tail[j] == e.tail[d.0 + j]);
                }
            }
            lemma_insert_below(rest, evaluated, n);
            lemma_unfold_below(g, rest.insert(evaluated)->Ok_0, deeper, less, n);
        },
    }
}

/// Fuel only limits: an evaluation that comes to an end gives the same
/// with any greater fuel.
pub proof fn lemma_eval_fuel(g: Seq<ItemView>, e: ExprView, ctx: nat, fuel: nat, more: nat)
    requires
        fuel <= more,
        eval_spec(g, e, ctx, fuel) is Ok,
    ensures
        eval_spec(g, e, ctx, more) == eval_spec(g, e, ctx, fuel),
    decreases fuel, 1nat, e,
{
    let inner = ctx + e.arrow_params.len();
    lemma_eval_each(g, e.arrow_params, ctx, true, fuel);
    lemma_eval_each(g, e.tail, inner, false, fuel);
    lemma_eval_each(g, e.arrow_params, ctx, true, more);
    lemma_eval_each(g, e.tail, inner, false, more);
    let rp = eval_each(g, e.arrow_params, ctx, true, fuel);
    let rt = eval_each(g, e.tail, inner, false, fuel);
    let rp2 = eval_each(g, e.arrow_params, ctx, true, more);
    let rt2 = eval_each(g, e.tail, inner, false, more);
    lemma_collect_is_ok(rp);
    lemma_collect_is_ok(rt);
    let ps = collect(rp)->Ok_0;
    let ts = collect(rt)->Ok_0;
    assert forall|j: int| 0 <= j < rp2.len() implies rp2[j] == Ok::<ExprView, TypeErrorView>(
        ps[j],
    ) by {
        assert(rp[j] == Ok::<ExprView, TypeErrorView>(ps[j]));
        lemma_eval_fuel(g, e.arrow_params[j], (ctx + j) as nat, fuel, more);
    }
    assert forall|j: int| 0 <= j < rt2.len() implies rt2[j] == Ok::<ExprView, TypeErrorView>(
        ts[j],
    ) by {
        assert(rt[j] == Ok::<ExprView, TypeErrorView>(ts[j]));
        lemma_eval_fuel(g, e.tail[j], inner, fuel, more);
    }
    lemma_collect_ok(rp2, ps);
    lemma_collect_ok(rt2, ts);
    lemma_unfold_fuel(g, ExprView { arrow_params: ps, head: e.head, tail: ts }, inner, fuel, more);
}

/// An unfolding that comes to an end gives the same with any greater
/// fuel.
pub proof fn lemma_unfold_fuel(g: Seq<ItemView>, e: ExprView, inner: nat, fuel: nat, more: nat)
    requires
        fuel <= more,
        unfold_spec(g, e, inner, fuel) is Ok,
    ensures
        unfold_spec(g, e, inner, more) == unfold_spec(g, e, inner, fuel),
    decreases fuel, 0nat, e,
{
    match redex(g, e) {
        None => {},
        Some(d) => {
            let less = (fuel - 1) as nat;
            let less2 = (more - 1) as nat;
            let r = subst_spec(d.1, 0, 0, e.tail.subrange(0, d.0 as int), inner)->Ok_0;
            let deeper = inner + r.arrow_params.len();
            lemma_eval_each(g, r.arrow_params, inner, true, less);
            lemma_eval_each(g, r.tail, deeper, false, less);
            lemma_eval_each(g, r.arrow_params, inner, true, less2);
            lemma_eval_each(g, r.tail, deeper, false, less2);
            let rp = eval_each(g, r.arrow_params, inner, true, less);
            let rt = eval_each(g, r.tail, deeper, false, less);
            let rp2 = eval_each(g, r.arrow_params, inner, true, less2);
            let rt2 = eval_each(g, r.tail, deeper, false, less2);
            lemma_collect_is_ok(rp);
            lemma_collect_is_ok(rt);
            let ps = collect(rp)->Ok_0;
            let ts = collect(rt)->Ok_0;
            assert forall|j: int| 0 <= j < rp2.len() implies rp2[j] == Ok::<
                ExprView,
                TypeErrorView,
            >(ps[j]) by {
                assert(rp[j] == Ok::<ExprView, TypeErrorView>(ps[j]));
                lemma_eval_fuel(g, r.arrow_params[j], (inner + j) as nat, less, less2);
            }
            assert forall|j: int| 0 <= j < rt2.len() implies rt2[j] == Ok::<
                ExprView,
                TypeErrorView,
            >(ts[j]) by {
                assert(rt[j] == Ok::<ExprView, TypeErrorView>(ts[j]));
                lemma_eval_fuel(g, r.tail[j], deeper, less, less2);
            }
            lemma_collect_ok(rp2, ps);
            lemma_collect_ok(rt2, ts);
            let rest = shell(e, d.0);
            let next = rest.insert(ExprView { arrow_params: ps, head: r.head, tail: ts })->Ok_0;
            lemma_unfold_fuel(g, next, deeper, less, less2);
        },
    }
}

} // verus!
