//! The top level: items are checked in the order of their declaration,
//! and each one that passes joins the global table.

use crate::ast;
use crate::check::{
    calculate_type_spec, lemma_type_fuel, lemma_typed_universes_bare, sort_check_expr,
    sort_check_spec, type_check_expr, type_check_spec,
};
use crate::context::{texts, Context};
use crate::elaborate::{convert_expr, convert_spec, lemma_convert_below};
use crate::error::{Checked, TypeError, TypeErrorView};
use crate::eval::{eval, eval_spec, lemma_eval_bare, lemma_eval_below, lemma_eval_fuel};
use crate::globals::{
    bodies_below, item_views, items_bare, ordered, Globals, GlobalsView, Item, ItemView,
};
use crate::render::render_spec;
use crate::term::{globals_below, lemma_below_mono, universes_bare, views, Expr, ExprView};
use vstd::prelude::*;
use vstd::string::StringExecFns;

verus! {

broadcast use {crate::term::lemma_view, crate::ast::lemma_item_view};

/// The line printed once every item has passed.
pub const SUMMARY: &'static str = "Successfully type-checked all items!";

/// The type that an annotation declares: elaborated under no locals,
/// checked to be a type, and evaluated.
pub open spec fn declared_type_spec(g: GlobalsView, typ: ast::ExprView, fuel: nat) -> Checked {
    match convert_spec(g.names, Seq::empty(), typ) {
        Err(x) => Err(x),
        Ok(ty) => match sort_check_spec(g.defs, Seq::empty(), ty, fuel) {
            Err(x) => Err(x),
            Ok(_) => eval_spec(g.defs, ty, 0, fuel),
        },
    }
}

/// The type `ty` without its first `n` binders.
pub open spec fn peeled(ty: ExprView, n: usize) -> ExprView {
    ExprView {
        arrow_params: ty.arrow_params.subrange(n as int, ty.arrow_params.len() as int),
        head: ty.head,
        tail: ty.tail,
    }
}

/// The check of a body with `n` parameters against the declared type
/// `ty`: under the first `n` binders of `ty`, the body must have the type
/// that is left of `ty`.
pub open spec fn body_check_spec(
    g: GlobalsView,
    ty: ExprView,
    n: usize,
    body: ExprView,
    fuel: nat,
) -> Result<(), TypeErrorView> {
    if n > ty.arrow_params.len() {
        Err(TypeErrorView::TooManyParameters)
    } else {
        type_check_spec(g.defs, ty.arrow_params.subrange(0, n as int), body, peeled(ty, n), fuel)
    }
}

/// The definition `d` of an item of declared type `ty`: its name must be
/// the annotation's, its body is elaborated with the parameters as the
/// locals, and, unless the annotation exempts it, checked against `ty`.
pub open spec fn check_definition_spec(
    g: GlobalsView,
    a: ast::AnnotationView,
    ty: ExprView,
    d: ast::FunctionView,
    fuel: nat,
) -> Result<(Seq<char>, ItemView), TypeErrorView> {
    if a.name != d.fname {
        Err(TypeErrorView::NameMismatch { annotation: a.name, definition: d.fname })
    } else {
        match convert_spec(g.names, d.vars, d.body) {
            Err(x) => Err(x),
            Ok(body) => {
                let entry = (d.fname, ItemView { ty, def: Some((d.vars.len() as usize, body)) });
                if a.is_post {
                    Ok(entry)
                } else {
                    match body_check_spec(g, ty, d.vars.len() as usize, body, fuel) {
                        Err(x) => Err(x),
                        Ok(_) => Ok(entry),
                    }
                }
            },
        }
    }
}

/// The entry that `item` adds to the table `g`: its name, its type, and
/// its definition where it has one.
#[verifier::opaque]
pub open spec fn check_item_spec(g: GlobalsView, item: ast::ItemView, fuel: nat) -> Result<
    (Seq<char>, ItemView),
    TypeErrorView,
> {
    if item.associated.len() > 0 {
        Err(TypeErrorView::NotImplemented)
    } else {
        match item.annotation {
            None => match item.definition {
                None => Err(TypeErrorView::EmptyItem),
                Some(d) => if d.vars.len() > 0 {
                    Err(TypeErrorView::MissingAnnotation)
                } else {
                    Err(TypeErrorView::NotImplemented)
                },
            },
            Some(a) => match declared_type_spec(g, a.typ, fuel) {
                Err(x) => Err(x),
                Ok(ty) => match item.definition {
                    None => Ok((a.name, ItemView { ty, def: None })),
                    Some(d) => check_definition_spec(g, a, ty, d, fuel),
                },
            },
        }
    }
}

/// An item that passed, with a definition whose annotation asks for the
/// check, has a body of the type that is left of the declared type once
/// the parameters are peeled off. The body is typed under the binders
/// that were peeled.
pub proof fn lemma_checked_body_has_type(g: GlobalsView, item: ast::ItemView, fuel: nat)
    requires
        check_item_spec(g, item, fuel) is Ok,
        item.annotation is Some,
        !item.annotation->Some_0.is_post,
        check_item_spec(g, item, fuel)->Ok_0.1.def is Some,
    ensures
        ({
            let entry = check_item_spec(g, item, fuel)->Ok_0.1;
            let n = entry.def->Some_0.0;
            let body = entry.def->Some_0.1;
            &&& n <= entry.ty.arrow_params.len()
            &&& calculate_type_spec(g.defs, entry.ty.arrow_params.subrange(0, n as int), body, fuel)
                == Ok::<ExprView, TypeErrorView>(peeled(entry.ty, n))
        }),
{
    reveal(check_item_spec);
}

/// Whether the annotation of `item`, if it has one, asks for the body to
/// be checked.
pub open spec fn asks_for_check(item: ast::ItemView) -> bool {
    item.annotation matches Some(a) ==> !a.is_post
}

/// An item that passes, and whose body is checked, adds an entry with
/// bare universes to a table that has them bare.
pub proof fn lemma_item_bare(g: GlobalsView, item: ast::ItemView, fuel: nat)
    requires
        items_bare(g.defs),
        asks_for_check(item),
        check_item_spec(g, item, fuel) is Ok,
    ensures
        items_bare(extended(g, check_item_spec(g, item, fuel)->Ok_0).defs),
{
    reveal(check_item_spec);
    let entry = check_item_spec(g, item, fuel)->Ok_0;
    let a = item.annotation->Some_0;
    let raw = convert_spec(g.names, Seq::empty(), a.typ)->Ok_0;
    lemma_typed_universes_bare(g.defs, Seq::empty(), raw, fuel);
    lemma_eval_bare(g.defs, raw, 0, fuel);
    assert(universes_bare(entry.1.ty));
    if item.definition is Some {
        let d = item.definition->Some_0;
        let body = convert_spec(g.names, d.vars, d.body)->Ok_0;
        let n = d.vars.len() as usize;
        lemma_typed_universes_bare(
            g.defs,
            entry.1.ty.arrow_params.subrange(0, n as int),
            body,
            fuel,
        );
    }
    let after = extended(g, entry).defs;
    assert forall|i: int| 0 <= i < after.len() implies universes_bare((#[trigger] after[i]).ty)
        && (after[i].def matches Some(d) ==> universes_bare(d.1)) by {
        if i < g.defs.len() {
            assert(after[i] == g.defs[i]);
        }
    }
}

/// A run over items whose bodies are all checked leaves a table with
/// bare universes, where it began with one.
pub proof fn lemma_run_bare(
    g: GlobalsView,
    items: Seq<ast::ItemView>,
    k: nat,
    lines: Seq<Seq<char>>,
    fuel: nat,
)
    requires
        items_bare(g.defs),
        forall|i: int| 0 <= i < items.len() ==> asks_for_check(#[trigger] items[i]),
    ensures
        items_bare(check_all_spec(g, items, k, lines, fuel).globals.defs),
    decreases items.len() - k,
{
    if k < items.len() {
        match check_item_spec(g, items[k as int], fuel) {
            Err(_) => {},
            Ok(entry) => {
                lemma_item_bare(g, items[k as int], fuel);
                lemma_run_bare(
                    extended(g, entry),
                    items,
                    k + 1,
                    lines.push(item_line(entry.0, entry.1.ty)),
                    fuel,
                );
            },
        }
    }
}

/// Whether the table has a name for each item, and no more entries than
/// the machine can count.
pub open spec fn aligned(g: GlobalsView) -> bool {
    g.names.len() == g.defs.len() && g.names.len() <= usize::MAX
}

/// An item that passes refers to the items before it only: the table
/// stays ordered.
pub proof fn lemma_item_ordered(g: GlobalsView, item: ast::ItemView, fuel: nat)
    requires
        aligned(g),
        ordered(g.defs),
        check_item_spec(g, item, fuel) is Ok,
    ensures
        ordered(extended(g, check_item_spec(g, item, fuel)->Ok_0).defs),
{
    reveal(check_item_spec);
    let n = g.defs.len();
    let entry = check_item_spec(g, item, fuel)->Ok_0;
    let a = item.annotation->Some_0;
    let raw = convert_spec(g.names, Seq::empty(), a.typ)->Ok_0;
    lemma_convert_below(g.names, Seq::empty(), a.typ);
    assert(bodies_below(g.defs, n)) by {
        assert forall|i: int| 0 <= i < g.defs.len() implies ((#[trigger] g.defs[i]).def matches Some(
            d,
        ) ==> globals_below(d.1, n)) by {
            if g.defs[i].def is Some {
                lemma_below_mono(g.defs[i].def->Some_0.1, i as nat, n);
            }
        }
    }
    lemma_eval_below(g.defs, raw, 0, fuel, n);
    if item.definition is Some {
        let d = item.definition->Some_0;
        lemma_convert_below(g.names, d.vars, d.body);
    }
    let after = extended(g, entry).defs;
    assert forall|i: int| 0 <= i < after.len() implies globals_below(
        (#[trigger] after[i]).ty,
        i as nat,
    ) && (after[i].def matches Some(d) ==> globals_below(d.1, i as nat)) by {
        if i < g.defs.len() {
            assert(after[i] == g.defs[i]);
        }
    }
}

/// A run leaves the table ordered, where it found it so.
pub proof fn lemma_run_ordered(
    g: GlobalsView,
    items: Seq<ast::ItemView>,
    k: nat,
    lines: Seq<Seq<char>>,
    fuel: nat,
)
    requires
        g.names.len() == g.defs.len(),
        g.names.len() + (items.len() - k) <= usize::MAX,
        k <= items.len(),
        ordered(g.defs),
    ensures
        ordered(check_all_spec(g, items, k, lines, fuel).globals.defs),
    decreases items.len() - k,
{
    if k < items.len() {
        match check_item_spec(g, items[k as int], fuel) {
            Err(_) => {},
            Ok(entry) => {
                lemma_item_ordered(g, items[k as int], fuel);
                lemma_run_ordered(
                    extended(g, entry),
                    items,
                    k + 1,
                    lines.push(item_line(entry.0, entry.1.ty)),
                    fuel,
                );
            },
        }
    }
}

/// Checks one item against the table and gives the entry to add: the
/// item's name, its evaluated type, and its definition.
pub fn type_check_function(globals: &Globals, fun: &ast::Item, fuel: usize) -> (res: Result<
    (String, Item),
    TypeError,
>)
    ensures
        match check_item_spec(globals@, fun@, fuel as nat) {
            Ok(entry) => res is Ok && res->Ok_0.0@ == entry.0 && res->Ok_0.1@ == entry.1,
            Err(x) => res is Err && res->Err_0@ == x,
        },
{
    reveal(check_item_spec);
    if fun.associated.len() > 0 {
        return Err(TypeError::NotImplemented);
    }
    let annotation = match &fun.annotation {
        None => {
            match &fun.definition {
                None => {
                    return Err(TypeError::EmptyItem);
                },
                Some(d) => {
                    if d.vars.len() > 0 {
                        return Err(TypeError::MissingAnnotation);
                    } else {
                        return Err(TypeError::NotImplemented);
                    }
                },
            }
        },
        Some(a) => a,
    };
    let no_names: Vec<String> = Vec::new();
    let no_types: Vec<Expr> = Vec::new();
    assert(texts(no_names@) =~= Seq::<Seq<char>>::empty());
    assert(views(no_types@) =~= Seq::<ExprView>::empty());
    let mut ty = match convert_expr(
        &globals.names,
        &Context::new(no_names.as_slice()),
        &annotation.typ,
    ) {
        Err(e) => {
            return Err(e);
        },
        Ok(t) => t,
    };
    match sort_check_expr(&globals.defs, &Context::new(no_types.as_slice()), &ty, fuel) {
        Err(e) => {
            return Err(e);
        },
        Ok(_) => {},
    }
    match eval(&globals.defs, &mut ty, 0, fuel) {
        Err(e) => {
            return Err(e);
        },
        Ok(_) => {},
    }
    let definition = match &fun.definition {
        None => {
            return Ok((annotation.name.clone(), Item { ty, def: None }));
        },
        Some(d) => d,
    };
    if annotation.name != definition.fname {
        return Err(
            TypeError::NameMismatch {
                annotation: annotation.name.clone(),
                definition: definition.fname.clone(),
            },
        );
    }
    let param_num = definition.vars.len();
    let def = match convert_expr(
        &globals.names,
        &Context::new(definition.vars.as_slice()),
        &definition.body,
    ) {
        Err(e) => {
            return Err(e);
        },
        Ok(t) => t,
    };
    if !annotation.is_post {
        let copy = ty.clone();
        if param_num > copy.arrow_params.len() {
            return Err(TypeError::TooManyParameters);
        }
        let mut bindings = copy.arrow_params;
        let rest = bindings.split_off(param_num);
        let result = Expr { arrow_params: rest, head: copy.head, tail: copy.tail };
        assert(views(bindings@) =~= ty@.arrow_params.subrange(0, param_num as int));
        assert(result@.arrow_params =~= peeled(ty@, param_num).arrow_params);
        assert(result@.tail =~= ty@.tail);
        match type_check_expr(
            &globals.defs,
            &Context::new(bindings.as_slice()),
            &def,
            &result,
            fuel,
        ) {
            Err(e) => {
                return Err(e);
            },
            Ok(_) => {},
        }
    }
    Ok((definition.fname.clone(), Item { ty, def: Some((param_num, def)) }))
}

/// What a run over a program gives: one line for each item that passed,
/// and the failure that ended the run, if one did.
pub struct Report {
    pub lines: Vec<String>,
    pub failure: Option<TypeError>,
}

/// The mathematical value of a run: the table it leaves, the lines, and
/// the failure.
pub struct ReportView {
    pub globals: GlobalsView,
    pub lines: Seq<Seq<char>>,
    pub failure: Option<TypeErrorView>,
}

/// The line for an item that passed: its name, a colon, and its type.
pub open spec fn item_line(name: Seq<char>, ty: ExprView) -> Seq<char> {
    name + seq![':', ' '] + render_spec(ty)
}

/// The table `g` with one more entry.
pub open spec fn extended(g: GlobalsView, entry: (Seq<char>, ItemView)) -> GlobalsView {
    GlobalsView { names: g.names.push(entry.0), defs: g.defs.push(entry.1) }
}

/// The run over `items` from position `k` on, begun with the table `g`
/// and the lines `lines`. It ends at the first item that fails.
pub open spec fn check_all_spec(
    g: GlobalsView,
    items: Seq<ast::ItemView>,
    k: nat,
    lines: Seq<Seq<char>>,
    fuel: nat,
) -> ReportView
    decreases items.len() - k,
{
    if k >= items.len() {
        ReportView { globals: g, lines, failure: None }
    } else {
        match check_item_spec(g, items[k as int], fuel) {
            Err(x) => ReportView { globals: g, lines, failure: Some(x) },
            Ok(entry) => check_all_spec(
                extended(g, entry),
                items,
                k + 1,
                lines.push(item_line(entry.0, entry.1.ty)),
                fuel,
            ),
        }
    }
}

/// The table only grows: what a run leaves begins with what it found,
/// and has names and items side by side where the table it found had.
pub proof fn lemma_run_extends(
    g: GlobalsView,
    items: Seq<ast::ItemView>,
    k: nat,
    lines: Seq<Seq<char>>,
    fuel: nat,
)
    ensures
        g.names.is_prefix_of(check_all_spec(g, items, k, lines, fuel).globals.names),
        g.defs.is_prefix_of(check_all_spec(g, items, k, lines, fuel).globals.defs),
        lines.is_prefix_of(check_all_spec(g, items, k, lines, fuel).lines),
        g.names.len() == g.defs.len() ==> check_all_spec(g, items, k, lines, fuel).globals.names.len()
            == check_all_spec(g, items, k, lines, fuel).globals.defs.len(),
    decreases items.len() - k,
{
    if k < items.len() {
        match check_item_spec(g, items[k as int], fuel) {
            Err(_) => {},
            Ok(entry) => {
                let next = extended(g, entry);
                let more = lines.push(item_line(entry.0, entry.1.ty));
                lemma_run_extends(next, items, k + 1, more, fuel);
                let run = check_all_spec(g, items, k, lines, fuel);
                assert(g.names.is_prefix_of(next.names));
                assert(g.defs.is_prefix_of(next.defs));
                assert(lines.is_prefix_of(more));
                assert(g.names.is_prefix_of(run.globals.names)) by {
                    assert forall|i: int| 0 <= i < g.names.len() implies g.names[i]
                        == run.globals.names[i] by {
                        assert(next.names[i] == g.names[i]);
                    }
                }
                assert(g.defs.is_prefix_of(run.globals.defs)) by {
                    assert forall|i: int| 0 <= i < g.defs.len() implies g.defs[i]
                        == run.globals.defs[i] by {
                        assert(next.defs[i] == g.defs[i]);
                    }
                }
                assert(lines.is_prefix_of(run.lines)) by {
                    assert forall|i: int| 0 <= i < lines.len() implies lines[i] == run.lines[i] by {
                        assert(more[i] == lines[i]);
                    }
                }
            },
        }
    }
}

/// Whether every definition of the table has a body of the type that is
/// left of its declared type once the parameters are peeled off, under
/// the table as it stood before the item joined it.
pub open spec fn bodies_typed(defs: Seq<ItemView>, fuel: nat) -> bool {
    forall|i: int|
        0 <= i < defs.len() ==> ((#[trigger] defs[i]).def matches Some(d) ==> d.0
            <= defs[i].ty.arrow_params.len() && calculate_type_spec(
            defs.subrange(0, i),
            defs[i].ty.arrow_params.subrange(0, d.0 as int),
            d.1,
            fuel,
        ) == Ok::<ExprView, TypeErrorView>(peeled(defs[i].ty, d.0)))
}

/// An item that passes, and whose body is checked, keeps the bodies of
/// the table typed.
pub proof fn lemma_item_typed(g: GlobalsView, item: ast::ItemView, fuel: nat)
    requires
        bodies_typed(g.defs, fuel),
        asks_for_check(item),
        check_item_spec(g, item, fuel) is Ok,
    ensures
        bodies_typed(extended(g, check_item_spec(g, item, fuel)->Ok_0).defs, fuel),
{
    let entry = check_item_spec(g, item, fuel)->Ok_0;
    let after = extended(g, entry).defs;
    let n = g.defs.len() as int;
    assert(item.annotation is Some) by {
        reveal(check_item_spec);
    }
    if entry.1.def is Some {
        lemma_checked_body_has_type(g, item, fuel);
    }
    assert forall|i: int| 0 <= i < after.len() implies ((#[trigger] after[i]).def matches Some(d)
        ==> d.0 <= after[i].ty.arrow_params.len() && calculate_type_spec(
        after.subrange(0, i),
        after[i].ty.arrow_params.subrange(0, d.0 as int),
        d.1,
        fuel,
    ) == Ok::<ExprView, TypeErrorView>(peeled(after[i].ty, d.0))) by {
        if i < n {
            assert(after[i] == g.defs[i]);
            assert(after.subrange(0, i) =~= g.defs.subrange(0, i));
        } else {
            assert(after[i] == entry.1);
            assert(after.subrange(0, i) =~= g.defs);
        }
    }
}

/// A run over items whose bodies are all checked leaves a table whose
/// bodies are typed, where it found one.
pub proof fn lemma_run_typed(
    g: GlobalsView,
    items: Seq<ast::ItemView>,
    k: nat,
    lines: Seq<Seq<char>>,
    fuel: nat,
)
    requires
        bodies_typed(g.defs, fuel),
        forall|i: int| 0 <= i < items.len() ==> asks_for_check(#[trigger] items[i]),
    ensures
        bodies_typed(check_all_spec(g, items, k, lines, fuel).globals.defs, fuel),
    decreases items.len() - k,
{
    if k < items.len() {
        match check_item_spec(g, items[k as int], fuel) {
            Err(_) => {},
            Ok(entry) => {
                lemma_item_typed(g, items[k as int], fuel);
                lemma_run_typed(
                    extended(g, entry),
                    items,
                    k + 1,
                    lines.push(item_line(entry.0, entry.1.ty)),
                    fuel,
                );
            },
        }
    }
}

/// Fuel only limits: an item that passes gives the same entry with any
/// greater fuel.
pub proof fn lemma_item_fuel(g: GlobalsView, item: ast::ItemView, fuel: nat, more: nat)
    requires
        fuel <= more,
        check_item_spec(g, item, fuel) is Ok,
    ensures
        check_item_spec(g, item, more) == check_item_spec(g, item, fuel),
{
    reveal(check_item_spec);
    let a = item.annotation->Some_0;
    let raw = convert_spec(g.names, Seq::empty(), a.typ)->Ok_0;
    lemma_type_fuel(g.defs, Seq::empty(), raw, fuel, more);
    lemma_eval_fuel(g.defs, raw, 0, fuel, more);
    let ty = eval_spec(g.defs, raw, 0, fuel)->Ok_0;
    if item.definition is Some {
        let d = item.definition->Some_0;
        let body = convert_spec(g.names, d.vars, d.body)->Ok_0;
        let n = d.vars.len() as usize;
        if !a.is_post {
            lemma_type_fuel(g.defs, ty.arrow_params.subrange(0, n as int), body, fuel, more);
        }
    }
}

/// A run in which every item passes gives the same with any greater
/// fuel.
pub proof fn lemma_run_fuel(
    g: GlobalsView,
    items: Seq<ast::ItemView>,
    k: nat,
    lines: Seq<Seq<char>>,
    fuel: nat,
    more: nat,
)
    requires
        fuel <= more,
        check_all_spec(g, items, k, lines, fuel).failure is None,
    ensures
        check_all_spec(g, items, k, lines, more) == check_all_spec(g, items, k, lines, fuel),
    decreases items.len() - k,
{
    if k < items.len() {
        let entry = check_item_spec(g, items[k as int], fuel)->Ok_0;
        lemma_item_fuel(g, items[k as int], fuel, more);
        lemma_run_fuel(
            extended(g, entry),
            items,
            k + 1,
            lines.push(item_line(entry.0, entry.1.ty)),
            fuel,
            more,
        );
    }
}

/// The value of a failure that may be absent.
pub open spec fn failure_view(f: Option<TypeError>) -> Option<TypeErrorView> {
    match f {
        Some(e) => Some(e@),
        None => None,
    }
}

/// Checks the items of a program in order. Each item that passes is
/// added to `globals` and gets a line in the report; the first item that
/// fails ends the run.
pub fn type_check_all(globals: &mut Globals, programs: Vec<ast::Item>, fuel: usize) -> (out: Report)
    ensures
        ({
            let run = check_all_spec(
                old(globals)@,
                ast::item_views(programs@),
                0,
                Seq::empty(),
                fuel as nat,
            );
            &&& final(globals)@ == run.globals
            &&& texts(out.lines@) == run.lines
            &&& failure_view(out.failure) == run.failure
        }),
        items_bare(old(globals)@.defs) && (forall|i: int|
            0 <= i < programs.len() ==> asks_for_check(#[trigger] ast::item_views(programs@)[i]))
            ==> items_bare(final(globals)@.defs),
        old(globals)@.names.is_prefix_of(final(globals)@.names),
        old(globals)@.defs.is_prefix_of(final(globals)@.defs),
        old(globals).names.len() == old(globals).defs.len() && old(globals).names.len()
            + programs.len() <= usize::MAX && ordered(old(globals)@.defs) ==> ordered(
            final(globals)@.defs,
        ),
        bodies_typed(old(globals)@.defs, fuel as nat) && (forall|i: int|
            0 <= i < programs.len() ==> asks_for_check(#[trigger] ast::item_views(programs@)[i]))
            ==> bodies_typed(final(globals)@.defs, fuel as nat),
{
    let ghost items = ast::item_views(programs@);
    let ghost goal = check_all_spec(globals@, items, 0, Seq::empty(), fuel as nat);
    proof {
        if globals.names.len() == globals.defs.len() && globals.names.len() + programs.len()
            <= usize::MAX && ordered(globals@.defs) {
            lemma_run_ordered(globals@, items, 0, Seq::empty(), fuel as nat);
        }
        lemma_run_extends(globals@, items, 0, Seq::empty(), fuel as nat);
        if bodies_typed(globals@.defs, fuel as nat) && (forall|i: int|
            0 <= i < items.len() ==> asks_for_check(#[trigger] items[i])) {
            lemma_run_typed(globals@, items, 0, Seq::empty(), fuel as nat);
        }
        if items_bare(globals@.defs) && (forall|i: int|
            0 <= i < items.len() ==> asks_for_check(#[trigger] items[i])) {
            lemma_run_bare(globals@, items, 0, Seq::empty(), fuel as nat);
        }
    }
    let mut lines: Vec<String> = Vec::new();
    assert(texts(lines@) =~= Seq::<Seq<char>>::empty());
    let mut k: usize = 0;
    while k < programs.len()
        invariant
            k <= programs.len(),
            items == ast::item_views(programs@),
            goal == check_all_spec(old(globals)@, items, 0, Seq::empty(), fuel as nat),
            goal == check_all_spec(globals@, items, k as nat, texts(lines@), fuel as nat),
            old(globals)@.names.is_prefix_of(goal.globals.names),
            old(globals)@.defs.is_prefix_of(goal.globals.defs),
            items_bare(old(globals)@.defs) && (forall|i: int|
                0 <= i < items.len() ==> asks_for_check(#[trigger] items[i])) ==> items_bare(
                goal.globals.defs,
            ),
            old(globals).names.len() == old(globals).defs.len() && old(globals).names.len()
                + programs.len() <= usize::MAX && ordered(old(globals)@.defs) ==> ordered(
                goal.globals.defs,
            ),
            bodies_typed(old(globals)@.defs, fuel as nat) && (forall|i: int|
                0 <= i < items.len() ==> asks_for_check(#[trigger] items[i])) ==> bodies_typed(
                goal.globals.defs,
                fuel as nat,
            ),
        decreases programs.len() - k,
    {
        let ghost g = globals@;
        let ghost sofar = texts(lines@);
        match type_check_function(globals, &programs[k], fuel) {
            Err(e) => {
                return Report { lines, failure: Some(e) };
            },
            Ok(entry) => {
                let (name, item): (String, Item) = entry;
                let mut line = name.clone();
                proof {
                    reveal_strlit(": ");
                }
                line.append(": ");
                let ty_text = item.ty.to_string();
                line.append(ty_text.as_str());
                proof {
                    assert(": "@ =~= seq![':', ' ']);
                    assert(line@ =~= item_line(name@, item.ty@));
                }
                lines.push(line);
                globals.names.push(name);
                globals.defs.push(item);
                proof {
                    assert(globals@.names =~= g.names.push(name@));
                    assert(globals@.defs =~= g.defs.push(item@));
                    assert(texts(lines@) =~= sofar.push(item_line(name@, item.ty@)));
                }
            },
        }
        k += 1;
    }
    Report { lines, failure: None }
}

} // verus!
