//! Weakening and substitution on de Bruijn indexed terms.

use crate::error::{checked_view, list_view, Checked, TypeError, TypeErrorView};
use crate::outcome::{collect, lemma_collect_err, lemma_collect_is_ok, lemma_collect_ok};
use crate::term::{
    globals_below, lemma_insert_bare, lemma_insert_below, parts_bare, parts_below, universes_bare,
    views, Expr, ExprView, Ident,
};
use vstd::prelude::*;

verus! {

broadcast use crate::term::lemma_view;

/// The head `h` with a local at or above `ctx` moved up by `extra`.
pub open spec fn deepen_head(h: Ident, ctx: nat, extra: nat) -> Result<Ident, TypeErrorView> {
    match h {
        Ident::Local(i) => if i >= ctx {
            if i + extra > usize::MAX {
                Err(TypeErrorView::IndexOverflow)
            } else {
                Ok(Ident::Local((i + extra) as usize))
            }
        } else {
            Ok(h)
        },
        _ => Ok(h),
    }
}

/// The term `e` with every local at or above `ctx` moved up by `extra`.
/// It fails only where a moved index leaves the machine's range.
pub open spec fn deepen_spec(e: ExprView, ctx: nat, extra: nat) -> Checked
    decreases e,
{
    match collect(deepen_each(e.arrow_params, ctx, extra)) {
        Err(x) => Err(x),
        Ok(ps) => match collect(deepen_each(e.tail, ctx, extra)) {
            Err(x) => Err(x),
            Ok(ts) => match deepen_head(e.head, ctx, extra) {
                Err(x) => Err(x),
                Ok(h) => Ok(ExprView { arrow_params: ps, head: h, tail: ts }),
            },
        },
    }
}

/// `deepen_spec` on each term of a sequence.
pub open spec fn deepen_each(s: Seq<ExprView>, ctx: nat, extra: nat) -> Seq<Checked>
    decreases s,
{
    Seq::new(
        s.len(),
        |j: int|
            if 0 <= j < s.len() {
                deepen_spec(s[j], ctx, extra)
            } else {
                Err(TypeErrorView::IndexOverflow)
            },
    )
}

/// `deepen_each`, element by element.
pub proof fn lemma_deepen_each(s: Seq<ExprView>, ctx: nat, extra: nat)
    ensures
        deepen_each(s, ctx, extra).len() == s.len(),
        forall|j: int|
            0 <= j < s.len() ==> #[trigger] deepen_each(s, ctx, extra)[j] == deepen_spec(
                s[j],
                ctx,
                extra,
            ),
{
    reveal_with_fuel(deepen_each, 2);
}

/// Weakening by nothing changes nothing.
pub proof fn lemma_deepen_zero(e: ExprView, ctx: nat)
    ensures
        deepen_spec(e, ctx, 0) == Ok::<ExprView, TypeErrorView>(e),
    decreases e,
{
    lemma_deepen_each(e.arrow_params, ctx, 0);
    lemma_deepen_each(e.tail, ctx, 0);
    assert forall|j: int| 0 <= j < e.arrow_params.len() implies deepen_each(
        e.arrow_params,
        ctx,
        0,
    )[j] == Ok::<ExprView, TypeErrorView>(e.arrow_params[j]) by {
        lemma_deepen_zero(e.arrow_params[j], ctx);
    }
    assert forall|j: int| 0 <= j < e.tail.len() implies deepen_each(e.tail, ctx, 0)[j] == Ok::<
        ExprView,
        TypeErrorView,
    >(e.tail[j]) by {
        lemma_deepen_zero(e.tail[j], ctx);
    }
    lemma_collect_ok(deepen_each(e.arrow_params, ctx, 0), e.arrow_params);
    lemma_collect_ok(deepen_each(e.tail, ctx, 0), e.tail);
}

/// Whether `c` stands for the count `n`: the number itself, or nothing
/// where `n` has left the machine's range.
pub open spec fn counts(c: Option<usize>, n: nat) -> bool {
    match c {
        Some(v) => v == n,
        None => n > usize::MAX,
    }
}

/// The count `c` and `k` more.
pub(crate) fn count_add(c: Option<usize>, k: usize, Ghost(n): Ghost<nat>) -> (r: Option<usize>)
    requires
        counts(c, n),
    ensures
        counts(r, (n + k) as nat),
{
    match c {
        Some(v) => v.checked_add(k),
        None => None,
    }
}

fn deepen_all(
    xs: &Vec<Expr>,
    ctx: Option<usize>,
    extra: Option<usize>,
    Ghost(c): Ghost<nat>,
    Ghost(x): Ghost<nat>,
) -> (res: Result<Vec<Expr>, TypeError>)
    requires
        counts(ctx, c),
        counts(extra, x),
    ensures
        list_view(res) == collect(deepen_each(views(xs@), c, x)),
    decreases xs,
{
    let ghost rs = deepen_each(views(xs@), c, x);
    proof {
        lemma_deepen_each(views(xs@), c, x);
    }
    let mut out: Vec<Expr> = Vec::new();
    let mut i: usize = 0;
    while i < xs.len()
        invariant
            i <= xs.len(),
            out.len() == i,
            counts(ctx, c),
            counts(extra, x),
            rs == deepen_each(views(xs@), c, x),
            rs.len() == xs.len(),
            forall|j: int| 0 <= j < xs.len() ==> #[trigger] rs[j] == deepen_spec(xs@[j]@, c, x),
            forall|j: int| 0 <= j < i ==> rs[j] == Ok::<ExprView, TypeErrorView>(out@[j]@),
        decreases xs.len() - i,
    {
        match deepen_by(&xs[i], ctx, extra, Ghost(c), Ghost(x)) {
            Err(e) => {
                proof {
                    lemma_collect_err(rs, i as int);
                }
                return Err(e);
            },
            Ok(t) => {
                out.push(t);
            },
        }
        i += 1;
    }
    proof {
        lemma_collect_ok(rs, views(out@));
    }
    Ok(out)
}

/// Moves every local of `arg` at or above the count `ctx` up by the count
/// `extra`.
pub(crate) fn deepen_by(
    arg: &Expr,
    ctx: Option<usize>,
    extra: Option<usize>,
    Ghost(c): Ghost<nat>,
    Ghost(x): Ghost<nat>,
) -> (res: Result<Expr, TypeError>)
    requires
        counts(ctx, c),
        counts(extra, x),
    ensures
        checked_view(res) == deepen_spec(arg@, c, x),
    decreases arg,
{
    let arrow_params = match deepen_all(&arg.arrow_params, ctx, extra, Ghost(c), Ghost(x)) {
        Err(e) => {
            return Err(e);
        },
        Ok(v) => v,
    };
    let tail = match deepen_all(&arg.tail, ctx, extra, Ghost(c), Ghost(x)) {
        Err(e) => {
            return Err(e);
        },
        Ok(v) => v,
    };
    let head = match arg.head {
        Ident::Local(i) => {
            let moved = match ctx {
                Some(from) => i >= from,
                None => false,
            };
            if moved {
                match extra {
                    Some(by) => {
                        if by > usize::MAX - i {
                            return Err(TypeError::IndexOverflow);
                        }
                        Ident::Local(i + by)
                    },
                    None => {
                        return Err(TypeError::IndexOverflow);
                    },
                }
            } else {
                arg.head
            }
        },
        _ => arg.head,
    };
    let r = Expr { arrow_params, head, tail };
    assert(r@.arrow_params =~= views(arrow_params@));
    assert(r@.tail =~= views(tail@));
    Ok(r)
}

/// Moves every local of `arg` at or above `arg_ctx_size` up by `extra`.
pub fn deepen(arg: &Expr, arg_ctx_size: usize, extra: usize) -> (res: Result<Expr, TypeError>)
    ensures
        checked_view(res) == deepen_spec(arg@, arg_ctx_size as nat, extra as nat),
{
    deepen_by(
        arg,
        Some(arg_ctx_size),
        Some(extra),
        Ghost(arg_ctx_size as nat),
        Ghost(extra as nat),
    )
}

/// What becomes of the head `h` of a term whose binders `ps` and arguments
/// `ts` are already substituted: a shared local stays, a local in the
/// window is replaced by its argument, weakened by `inner` and spliced in,
/// and a local past the window is seated after `arg_ctx`.
pub open spec fn subst_head(
    h: Ident,
    ps: Seq<ExprView>,
    ts: Seq<ExprView>,
    shared: usize,
    inner: nat,
    args: Seq<ExprView>,
    arg_ctx: nat,
) -> Checked {
    match h {
        Ident::Local(i) => if i < shared {
            Ok(ExprView { arrow_params: ps, head: h, tail: ts })
        } else if i - shared < args.len() {
            match deepen_spec(args[i - shared], arg_ctx, inner) {
                Err(x) => Err(x),
                Ok(a) => (ExprView { arrow_params: ps, head: Ident::Universe(0), tail: ts }).insert(
                    a,
                ),
            }
        } else if arg_ctx + (i - shared - args.len()) > usize::MAX {
            Err(TypeErrorView::IndexOverflow)
        } else {
            Ok(
                ExprView {
                    arrow_params: ps,
                    head: Ident::Local((arg_ctx + (i - shared - args.len())) as usize),
                    tail: ts,
                },
            )
        },
        _ => Ok(ExprView { arrow_params: ps, head: h, tail: ts }),
    }
}

/// The term `base` read in a new context. Its locals below `shared` stay.
/// Those in `[shared, shared + |args|)` are replaced by the arguments, each
/// weakened above `arg_ctx` by the number of binders passed on the way
/// (`extra`, and one more for each binder of `base` gone through). Those
/// above are seated from `arg_ctx` on. The counts are numbers without
/// bound: only an index that the result holds can leave the machine's
/// range.
pub open spec fn subst_spec(
    base: ExprView,
    shared: usize,
    extra: nat,
    args: Seq<ExprView>,
    arg_ctx: nat,
) -> Checked
    decreases base,
{
    match collect(subst_each(base.arrow_params, shared, extra, true, args, arg_ctx)) {
        Err(x) => Err(x),
        Ok(ps) => {
            let inner = extra + base.arrow_params.len();
            match collect(subst_each(base.tail, shared, inner, false, args, arg_ctx)) {
                Err(x) => Err(x),
                Ok(ts) => subst_head(base.head, ps, ts, shared, inner, args, arg_ctx),
            }
        },
    }
}

/// `subst_spec` on each term of a sequence. With `widen`, the term at
/// position `j` stands under `j` binders more.
pub open spec fn subst_each(
    s: Seq<ExprView>,
    shared: usize,
    extra: nat,
    widen: bool,
    args: Seq<ExprView>,
    arg_ctx: nat,
) -> Seq<Checked>
    decreases s,
{
    Seq::new(
        s.len(),
        |j: int|
            if 0 <= j < s.len() {
                subst_spec(
                    s[j],
                    shared,
                    if widen {
                        (extra + j) as nat
                    } else {
                        extra
                    },
                    args,
                    arg_ctx,
                )
            } else {
                Err(TypeErrorView::IndexOverflow)
            },
    )
}

/// `subst_each`, element by element.
pub proof fn lemma_subst_each(
    s: Seq<ExprView>,
    shared: usize,
    extra: nat,
    widen: bool,
    args: Seq<ExprView>,
    arg_ctx: nat,
)
    ensures
        subst_each(s, shared, extra, widen, args, arg_ctx).len() == s.len(),
        forall|j: int|
            0 <= j < s.len() ==> #[trigger] subst_each(s, shared, extra, widen, args, arg_ctx)[j]
                == subst_spec(
                s[j],
                shared,
                if widen {
                    (extra + j) as nat
                } else {
                    extra
                },
                args,
                arg_ctx,
            ),
{
    reveal_with_fuel(subst_each, 2);
}

/// Whether every local of `e` lies below `bound`.
pub open spec fn locals_below(e: ExprView, bound: usize) -> bool
    decreases e,
{
    &&& e.head matches Ident::Local(i) ==> i < bound
    &&& forall|j: int|
        0 <= j < e.arrow_params.len() ==> locals_below(#[trigger] e.arrow_params[j], bound)
    &&& forall|j: int| 0 <= j < e.tail.len() ==> locals_below(#[trigger] e.tail[j], bound)
}

/// A term with no local at or above `shared` is left as it is, whatever
/// the arguments and the target context are.
pub proof fn lemma_subst_closed(
    base: ExprView,
    shared: usize,
    extra: nat,
    args: Seq<ExprView>,
    arg_ctx: nat,
)
    requires
        locals_below(base, shared),
    ensures
        subst_spec(base, shared, extra, args, arg_ctx) == Ok::<ExprView, TypeErrorView>(base),
    decreases base,
{
    let inner = extra + base.arrow_params.len();
    lemma_subst_each(base.arrow_params, shared, extra, true, args, arg_ctx);
    lemma_subst_each(base.tail, shared, inner, false, args, arg_ctx);
    let rp = subst_each(base.arrow_params, shared, extra, true, args, arg_ctx);
    let rt = subst_each(base.tail, shared, inner, false, args, arg_ctx);
    assert forall|j: int| 0 <= j < base.arrow_params.len() implies rp[j] == Ok::<
        ExprView,
        TypeErrorView,
    >(base.arrow_params[j]) by {
        lemma_subst_closed(base.arrow_params[j], shared, (extra + j) as nat, args, arg_ctx);
    }
    assert forall|j: int| 0 <= j < base.tail.len() implies rt[j] == Ok::<
        ExprView,
        TypeErrorView,
    >(base.tail[j]) by {
        lemma_subst_closed(base.tail[j], shared, inner, args, arg_ctx);
    }
    lemma_collect_ok(rp, base.arrow_params);
    lemma_collect_ok(rt, base.tail);
}

/// Substituting nothing into a term whose locals all lie in the shared
/// prefix gives the term back.
pub proof fn lemma_subst_nothing(base: ExprView, shared: usize, arg_ctx: nat)
    requires
        locals_below(base, shared),
    ensures
        subst_spec(base, shared, 0, Seq::empty(), arg_ctx) == Ok::<ExprView, TypeErrorView>(base),
{
    lemma_subst_closed(base, shared, 0, Seq::empty(), arg_ctx);
}

fn subst_all(
    xs: &Vec<Expr>,
    shared_ctx_size: usize,
    extra: Option<usize>,
    widen: bool,
    args: &[Expr],
    arg_ctx: Option<usize>,
    Ghost(x): Ghost<nat>,
    Ghost(c): Ghost<nat>,
) -> (res: Result<Vec<Expr>, TypeError>)
    requires
        counts(extra, x),
        counts(arg_ctx, c),
    ensures
        list_view(res) == collect(
            subst_each(views(xs@), shared_ctx_size, x, widen, views(args@), c),
        ),
    decreases xs,
{
    let ghost rs = subst_each(views(xs@), shared_ctx_size, x, widen, views(args@), c);
    proof {
        lemma_subst_each(views(xs@), shared_ctx_size, x, widen, views(args@), c);
    }
    let mut out: Vec<Expr> = Vec::new();
    let mut i: usize = 0;
    while i < xs.len()
        invariant
            i <= xs.len(),
            out.len() == i,
            counts(extra, x),
            counts(arg_ctx, c),
            rs == subst_each(views(xs@), shared_ctx_size, x, widen, views(args@), c),
            rs.len() == xs.len(),
            forall|j: int|
                0 <= j < xs.len() ==> #[trigger] rs[j] == subst_spec(
                    xs@[j]@,
                    shared_ctx_size,
                    if widen {
                        (x + j) as nat
                    } else {
                        x
                    },
                    views(args@),
                    c,
                ),
            forall|j: int| 0 <= j < i ==> rs[j] == Ok::<ExprView, TypeErrorView>(out@[j]@),
        decreases xs.len() - i,
    {
        let here = if widen {
            count_add(extra, i, Ghost(x))
        } else {
            extra
        };
        let ghost at: nat = if widen {
            (x + i) as nat
        } else {
            x
        };
        match subst_by(&xs[i], shared_ctx_size, here, args, arg_ctx, Ghost(at), Ghost(c)) {
            Err(e) => {
                proof {
                    lemma_collect_err(rs, i as int);
                }
                return Err(e);
            },
            Ok(t) => {
                out.push(t);
            },
        }
        i += 1;
    }
    proof {
        lemma_collect_ok(rs, views(out@));
    }
    Ok(out)
}

/// Reads `base` in a new context, where the counts of binders may have
/// left the machine's range.
pub(crate) fn subst_by(
    base: &Expr,
    shared_ctx_size: usize,
    extra: Option<usize>,
    args: &[Expr],
    arg_ctx: Option<usize>,
    Ghost(x): Ghost<nat>,
    Ghost(c): Ghost<nat>,
) -> (res: Result<Expr, TypeError>)
    requires
        counts(extra, x),
        counts(arg_ctx, c),
    ensures
        checked_view(res) == subst_spec(base@, shared_ctx_size, x, views(args@), c),
    decreases base,
{
    let arrow_params = match subst_all(
        &base.arrow_params,
        shared_ctx_size,
        extra,
        true,
        args,
        arg_ctx,
        Ghost(x),
        Ghost(c),
    ) {
        Err(e) => {
            return Err(e);
        },
        Ok(v) => v,
    };
    let inner = count_add(extra, base.arrow_params.len(), Ghost(x));
    let ghost within: nat = (x + base@.arrow_params.len()) as nat;
    let tail = match subst_all(
        &base.tail,
        shared_ctx_size,
        inner,
        false,
        args,
        arg_ctx,
        Ghost(within),
        Ghost(c),
    ) {
        Err(e) => {
            return Err(e);
        },
        Ok(v) => v,
    };
    let mut result = Expr { arrow_params, head: Ident::Universe(0), tail };
    assert(result@.arrow_params =~= views(arrow_params@));
    assert(result@.tail =~= views(tail@));
    match base.head {
        Ident::Local(i) => {
            if i < shared_ctx_size {
                result.head = Ident::Local(i);
            } else if i - shared_ctx_size < args.len() {
                let arg = match deepen_by(
                    &args[i - shared_ctx_size],
                    arg_ctx,
                    inner,
                    Ghost(c),
                    Ghost(within),
                ) {
                    Err(e) => {
                        return Err(e);
                    },
                    Ok(a) => a,
                };
                match result.insert(arg) {
                    Err(e) => {
                        return Err(e);
                    },
                    Ok(_) => {},
                }
            } else {
                let past: usize = i - shared_ctx_size - args.len();
                match arg_ctx {
                    Some(from) => {
                        if past > usize::MAX - from {
                            return Err(TypeError::IndexOverflow);
                        }
                        result.head = Ident::Local(from + past);
                    },
                    None => {
                        return Err(TypeError::IndexOverflow);
                    },
                }
            }
        },
        _ => {
            result.head = base.head;
        },
    }
    Ok(result)
}

/// Reads `base` in a new context: locals below `shared_ctx_size` stay, the
/// next `args.len()` are replaced by `args`, and the rest are seated from
/// `arg_ctx_size` on.
pub fn subst(
    base: &Expr,
    shared_ctx_size: usize,
    extra_ctx_size: usize,
    args: &[Expr],
    arg_ctx_size: usize,
) -> (res: Result<Expr, TypeError>)
    ensures
        checked_view(res) == subst_spec(
            base@,
            shared_ctx_size,
            extra_ctx_size as nat,
            views(args@),
            arg_ctx_size as nat,
        ),
{
    subst_by(
        base,
        shared_ctx_size,
        Some(extra_ctx_size),
        args,
        Some(arg_ctx_size),
        Ghost(extra_ctx_size as nat),
        Ghost(arg_ctx_size as nat),
    )
}

/// Weakening keeps universes bare.
pub proof fn lemma_deepen_bare(e: ExprView, ctx: nat, extra: nat)
    requires
        universes_bare(e),
        deepen_spec(e, ctx, extra) is Ok,
    ensures
        universes_bare(deepen_spec(e, ctx, extra)->Ok_0),
    decreases e,
{
    let r = deepen_spec(e, ctx, extra)->Ok_0;
    let rp = deepen_each(e.arrow_params, ctx, extra);
    let rt = deepen_each(e.tail, ctx, extra);
    lemma_deepen_each(e.arrow_params, ctx, extra);
    lemma_deepen_each(e.tail, ctx, extra);
    lemma_collect_is_ok(rp);
    lemma_collect_is_ok(rt);
    assert forall|j: int| 0 <= j < r.arrow_params.len() implies universes_bare(
        #[trigger] r.arrow_params[j],
    ) by {
        assert(rp[j] == Ok::<ExprView, TypeErrorView>(r.arrow_params[j]));
        lemma_deepen_bare(e.arrow_params[j], ctx, extra);
    }
    assert forall|j: int| 0 <= j < r.tail.len() implies universes_bare(#[trigger] r.tail[j]) by {
        assert(rt[j] == Ok::<ExprView, TypeErrorView>(r.tail[j]));
        lemma_deepen_bare(e.tail[j], ctx, extra);
    }
}

/// Substitution keeps universes bare, where the term and the arguments
/// have them bare.
pub proof fn lemma_subst_bare(
    base: ExprView,
    shared: usize,
    extra: nat,
    args: Seq<ExprView>,
    arg_ctx: nat,
)
    requires
        universes_bare(base),
        forall|k: int| 0 <= k < args.len() ==> universes_bare(#[trigger] args[k]),
        subst_spec(base, shared, extra, args, arg_ctx) is Ok,
    ensures
        universes_bare(subst_spec(base, shared, extra, args, arg_ctx)->Ok_0),
    decreases base,
{
    let inner = extra + base.arrow_params.len();
    let rp = subst_each(base.arrow_params, shared, extra, true, args, arg_ctx);
    let rt = subst_each(base.tail, shared, inner, false, args, arg_ctx);
    lemma_subst_each(base.arrow_params, shared, extra, true, args, arg_ctx);
    lemma_subst_each(base.tail, shared, inner, false, args, arg_ctx);
    lemma_collect_is_ok(rp);
    lemma_collect_is_ok(rt);
    let ps = collect(rp)->Ok_0;
    let ts = collect(rt)->Ok_0;
    assert forall|j: int| 0 <= j < ps.len() implies universes_bare(#[trigger] ps[j]) by {
        assert(rp[j] == Ok::<ExprView, TypeErrorView>(ps[j]));
        lemma_subst_bare(base.arrow_params[j], shared, (extra + j) as nat, args, arg_ctx);
    }
    assert forall|j: int| 0 <= j < ts.len() implies universes_bare(#[trigger] ts[j]) by {
        assert(rt[j] == Ok::<ExprView, TypeErrorView>(ts[j]));
        lemma_subst_bare(base.tail[j], shared, inner, args, arg_ctx);
    }
    match base.head {
        Ident::Local(i) => {
            if i >= shared && i - shared < args.len() {
                let a = deepen_spec(args[i - shared], arg_ctx, inner)->Ok_0;
                lemma_deepen_bare(args[i - shared], arg_ctx, inner);
                let shell = ExprView { arrow_params: ps, head: Ident::Universe(0), tail: ts };
                assert(parts_bare(shell));
                lemma_insert_bare(shell, a);
            }
        },
        _ => {},
    }
}

/// Weakening brings in no global.
pub proof fn lemma_deepen_below(e: ExprView, ctx: nat, extra: nat, n: nat)
    requires
        globals_below(e, n),
        deepen_spec(e, ctx, extra) is Ok,
    ensures
        globals_below(deepen_spec(e, ctx, extra)->Ok_0, n),
    decreases e,
{
    let r = deepen_spec(e, ctx, extra)->Ok_0;
    let rp = deepen_each(e.arrow_params, ctx, extra);
    let rt = deepen_each(e.tail, ctx, extra);
    lemma_deepen_each(e.arrow_params, ctx, extra);
    lemma_deepen_each(e.tail, ctx, extra);
    lemma_collect_is_ok(rp);
    lemma_collect_is_ok(rt);
    assert forall|j: int| 0 <= j < r.arrow_params.len() implies globals_below(
        #[trigger] r.arrow_params[j],
        n,
    ) by {
        assert(rp[j] == Ok::<ExprView, TypeErrorView>(r.arrow_params[j]));
        lemma_deepen_below(e.arrow_params[j], ctx, extra, n);
    }
    assert forall|j: int| 0 <= j < r.tail.len() implies globals_below(#[trigger] r.tail[j], n) by {
        assert(rt[j] == Ok::<ExprView, TypeErrorView>(r.tail[j]));
        lemma_deepen_below(e.tail[j], ctx, extra, n);
    }
}

/// Substitution brings in no global but those of the term and of the
/// arguments.
pub proof fn lemma_subst_below(
    base: ExprView,
    shared: usize,
    extra: nat,
    args: Seq<ExprView>,
    arg_ctx: nat,
    n: nat,
)
    requires
        globals_below(base, n),
        forall|k: int| 0 <= k < args.len() ==> globals_below(#[trigger] args[k], n),
        subst_spec(base, shared, extra, args, arg_ctx) is Ok,
    ensures
        globals_below(subst_spec(base, shared, extra, args, arg_ctx)->Ok_0, n),
    decreases base,
{
    let inner = extra + base.arrow_params.len();
    let rp = subst_each(base.arrow_params, shared, extra, true, args, arg_ctx);
    let rt = subst_each(base.tail, shared, inner, false, args, arg_ctx);
    lemma_subst_each(base.arrow_params, shared, extra, true, args, arg_ctx);
    lemma_subst_each(base.tail, shared, inner, false, args, arg_ctx);
    lemma_collect_is_ok(rp);
    lemma_collect_is_ok(rt);
    let ps = collect(rp)->Ok_0;
    let ts = collect(rt)->Ok_0;
    assert forall|j: int| 0 <= j < ps.len() implies globals_below(#[trigger] ps[j], n) by {
        assert(rp[j] == Ok::<ExprView, TypeErrorView>(ps[j]));
        lemma_subst_below(base.arrow_params[j], shared, (extra + j) as nat, args, arg_ctx, n);
    }
    assert forall|j: int| 0 <= j < ts.len() implies globals_below(#[trigger] ts[j], n) by {
        assert(rt[j] == Ok::<ExprView, TypeErrorView>(ts[j]));
        lemma_subst_below(base.tail[j], shared, inner, args, arg_ctx, n);
    }
    match base.head {
        Ident::Local(i) => {
            if i >= shared && i - shared < args.len() {
                let a = deepen_spec(args[i - shared], arg_ctx, inner)->Ok_0;
                lemma_deepen_below(args[i - shared], arg_ctx, inner, n);
                let shell = ExprView { arrow_params: ps, head: Ident::Universe(0), tail: ts };
                assert(parts_below(shell, n));
                lemma_insert_below(shell, a, n);
            }
        },
        _ => {},
    }
}

} // verus!
