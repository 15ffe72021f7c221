//! The table of checked items, in the order in which they were declared.

use crate::context::texts;
use crate::term::{globals_below, universes_bare, Expr, ExprView};
use vstd::prelude::*;

verus! {

/// A checked item: its type, evaluated, and its definition where it has
/// one. The definition is the number of parameters and the body, in which
/// the parameters are the locals `0..arity`.
pub struct Item {
    pub ty: Expr,
    pub def: Option<(usize, Expr)>,
}

/// The mathematical value of an [`Item`].
pub struct ItemView {
    pub ty: ExprView,
    pub def: Option<(usize, ExprView)>,
}

impl View for Item {
    type V = ItemView;

    open spec fn view(&self) -> ItemView {
        ItemView {
            ty: self.ty@,
            def: match self.def {
                None => None,
                Some(d) => Some((d.0, d.1@)),
            },
        }
    }
}

/// The values of a sequence of items, element by element.
pub open spec fn item_views(s: Seq<Item>) -> Seq<ItemView> {
    Seq::new(s.len(), |i: int| s[i]@)
}

/// Whether no universe in the body of any definition has arguments.
pub open spec fn bodies_bare(defs: Seq<ItemView>) -> bool {
    forall|i: int|
        0 <= i < defs.len() ==> ((#[trigger] defs[i]).def matches Some(d) ==> universes_bare(d.1))
}

/// Whether no universe in any type or body of the table has arguments.
pub open spec fn items_bare(defs: Seq<ItemView>) -> bool {
    &&& bodies_bare(defs)
    &&& forall|i: int| 0 <= i < defs.len() ==> universes_bare((#[trigger] defs[i]).ty)
}

/// Whether the bodies of the table refer to no global at or above `n`.
pub open spec fn bodies_below(defs: Seq<ItemView>, n: nat) -> bool {
    forall|i: int|
        0 <= i < defs.len() ==> ((#[trigger] defs[i]).def matches Some(d) ==> globals_below(d.1, n))
}

/// Whether every item of the table refers to earlier items only.
pub open spec fn ordered(defs: Seq<ItemView>) -> bool {
    forall|i: int|
        0 <= i < defs.len() ==> globals_below((#[trigger] defs[i]).ty, i as nat) && (
        defs[i].def matches Some(d) ==> globals_below(d.1, i as nat))
}

/// The global table: names and items side by side. `Global(i)` refers to
/// the entry `i` of both.
pub struct Globals {
    pub names: Vec<String>,
    pub defs: Vec<Item>,
}

/// The mathematical value of [`Globals`].
pub struct GlobalsView {
    pub names: Seq<Seq<char>>,
    pub defs: Seq<ItemView>,
}

impl View for Globals {
    type V = GlobalsView;

    open spec fn view(&self) -> GlobalsView {
        GlobalsView { names: texts(self.names@), defs: item_views(self.defs@) }
    }
}

impl Globals {
    /// The empty table.
    pub fn new() -> (r: Globals)
        ensures
            r@.names == Seq::<Seq<char>>::empty(),
            r@.defs == Seq::<ItemView>::empty(),
    {
        let r = Globals { names: Vec::new(), defs: Vec::new() };
        assert(r@.names =~= Seq::<Seq<char>>::empty());
        assert(r@.defs =~= Seq::<ItemView>::empty());
        r
    }
}

} // verus!
