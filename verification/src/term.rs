//! Terms in spine form: leading binder domains, a head symbol and the
//! arguments applied to it.

use crate::error::{unit_view, TypeError, TypeErrorView};
use vstd::prelude::*;

verus! {

/// The head symbol of a term.
#[derive(Clone, Copy, Debug, PartialEq, Eq, Structural)]
pub enum Ident {
    /// The universe at the given level.
    Universe(usize),
    /// An entry of the global table, by position.
    Global(usize),
    /// A local variable, counted from the outermost binder.
    Local(usize),
}

/// A term `A_0 -> ... -> A_(k-1) -> head a_0 ... a_(n-1)`.
#[derive(Debug)]
pub struct Expr {
    pub arrow_params: Vec<Expr>,
    pub head: Ident,
    pub tail: Vec<Expr>,
}

/// The mathematical value of an [`Expr`].
pub struct ExprView {
    pub arrow_params: Seq<ExprView>,
    pub head: Ident,
    pub tail: Seq<ExprView>,
}

impl View for Expr {
    type V = ExprView;

    open spec fn view(&self) -> ExprView
        decreases self,
    {
        ExprView {
            arrow_params: Seq::new(
                self.arrow_params@.len(),
                |i: int|
                    if 0 <= i < self.arrow_params@.len() {
                        self.arrow_params@[i].view()
                    } else {
                        ExprView::universe(0)
                    },
            ),
            head: self.head,
            tail: Seq::new(
                self.tail@.len(),
                |i: int|
                    if 0 <= i < self.tail@.len() {
                        self.tail@[i].view()
                    } else {
                        ExprView::universe(0)
                    },
            ),
        }
    }
}

impl Expr {
    /// The bare universe `U_l`.
    pub fn universe(l: usize) -> (r: Expr)
        ensures
            r@ == ExprView::universe(l),
    {
        broadcast use lemma_view;

        let r = Expr { arrow_params: Vec::new(), head: Ident::Universe(l), tail: Vec::new() };
        assert(r@.arrow_params =~= Seq::empty());
        assert(r@.tail =~= Seq::empty());
        r
    }

    /// The level, when the term is a bare universe.
    pub fn universe_level(&self) -> (r: Option<usize>)
        ensures
            r == self@.universe_level(),
    {
        broadcast use lemma_view;

        if self.arrow_params.len() > 0 || self.tail.len() > 0 {
            None
        } else {
            match self.head {
                Ident::Universe(l) => Some(l),
                _ => None,
            }
        }
    }
}

impl Expr {
    /// Splices `other` into the head position: its binders come before the
    /// binders of `self`, its head replaces the head, and its arguments
    /// come before the arguments of `self`. On failure `self` is unchanged.
    pub fn insert(&mut self, other: Expr) -> (res: Result<(), TypeError>)
        ensures
            match old(self)@.insert(other@) {
                Ok(m) => res is Ok && final(self)@ == m,
                Err(x) => unit_view(res) == Err::<(), TypeErrorView>(x) && final(self)@ == old(
                    self,
                )@,
            },
    {
        broadcast use lemma_view;

        let mut other = other;
        if (other.universe_level().is_some() || other.arrow_params.len() > 0) && self.tail.len()
            > 0 {
            return Err(TypeError::ArrowInHead);
        }
        let ghost before = *self;
        let ghost given = other;
        other.arrow_params.append(&mut self.arrow_params);
        self.arrow_params = other.arrow_params;
        self.head = other.head;
        other.tail.append(&mut self.tail);
        self.tail = other.tail;
        proof {
            assert(self@.arrow_params =~= given@.arrow_params + before@.arrow_params);
            assert(self@.tail =~= given@.tail + before@.tail);
        }
        Ok(())
    }

    /// Whether two terms are the same term.
    pub fn equals(&self, other: &Expr) -> (r: bool)
        ensures
            r == (self@ == other@),
        decreases self,
    {
        broadcast use lemma_view;

        if self.head != other.head {
            return false;
        }
        if self.arrow_params.len() != other.arrow_params.len() {
            return false;
        }
        if self.tail.len() != other.tail.len() {
            return false;
        }
        let mut i: usize = 0;
        while i < self.arrow_params.len()
            invariant
                i <= self.arrow_params.len(),
                self.arrow_params.len() == other.arrow_params.len(),
                forall|j: int| 0 <= j < i ==> self.arrow_params@[j]@ == other.arrow_params@[j]@,
            decreases self.arrow_params.len() - i,
        {
            if !self.arrow_params[i].equals(&other.arrow_params[i]) {
                proof {
                    lemma_view(*self);
                    lemma_view(*other);
                    assert(self@.arrow_params[i as int] != other@.arrow_params[i as int]);
                }
                return false;
            }
            i += 1;
        }
        let mut k: usize = 0;
        while k < self.tail.len()
            invariant
                k <= self.tail.len(),
                self.tail.len() == other.tail.len(),
                forall|j: int| 0 <= j < k ==> self.tail@[j]@ == other.tail@[j]@,
            decreases self.tail.len() - k,
        {
            if !self.tail[k].equals(&other.tail[k]) {
                proof {
                    lemma_view(*self);
                    lemma_view(*other);
                    assert(self@.tail[k as int] != other@.tail[k as int]);
                }
                return false;
            }
            k += 1;
        }
        assert(self@.arrow_params =~= other@.arrow_params);
        assert(self@.tail =~= other@.tail);
        true
    }
}

impl Clone for Expr {
    fn clone(&self) -> (r: Expr)
        ensures
            r@ == self@,
        decreases self,
    {
        broadcast use lemma_view;

        let mut arrow_params: Vec<Expr> = Vec::new();
        let mut i: usize = 0;
        while i < self.arrow_params.len()
            invariant
                i <= self.arrow_params.len(),
                arrow_params.len() == i,
                forall|j: int| 0 <= j < i ==> arrow_params@[j]@ == self.arrow_params@[j]@,
            decreases self.arrow_params.len() - i,
        {
            let c = self.arrow_params[i].clone();
            arrow_params.push(c);
            i += 1;
        }
        let mut tail: Vec<Expr> = Vec::new();
        let mut k: usize = 0;
        while k < self.tail.len()
            invariant
                k <= self.tail.len(),
                tail.len() == k,
                forall|j: int| 0 <= j < k ==> tail@[j]@ == self.tail@[j]@,
            decreases self.tail.len() - k,
        {
            let c = self.tail[k].clone();
            tail.push(c);
            k += 1;
        }
        let r = Expr { arrow_params, head: self.head, tail };
        assert(r@.arrow_params =~= self@.arrow_params);
        assert(r@.tail =~= self@.tail);
        r
    }
}

/// The values of a sequence of terms, element by element.
pub open spec fn views(s: Seq<Expr>) -> Seq<ExprView> {
    Seq::new(s.len(), |i: int| s[i]@)
}

/// The value of a term, one level unfolded.
pub broadcast proof fn lemma_view(e: Expr)
    ensures
        #[trigger] e@ == (ExprView {
            arrow_params: views(e.arrow_params@),
            head: e.head,
            tail: views(e.tail@),
        }),
        e@.arrow_params.len() == e.arrow_params@.len(),
        e@.tail.len() == e.tail@.len(),
        e@.head == e.head,
{
    reveal_with_fuel(<Expr as View>::view, 2);
    assert(e@.arrow_params =~= views(e.arrow_params@));
    assert(e@.tail =~= views(e.tail@));
}

impl ExprView {
    /// `other` spliced into the head position of `self`. It fails where
    /// `other` is a function type or a universe and `self` has arguments.
    pub open spec fn insert(self, other: ExprView) -> Result<ExprView, TypeErrorView> {
        if (other.universe_level() is Some || other.arrow_params.len() > 0) && self.tail.len()
            > 0 {
            Err(TypeErrorView::ArrowInHead)
        } else {
            Ok(
                ExprView {
                    arrow_params: other.arrow_params + self.arrow_params,
                    head: other.head,
                    tail: other.tail + self.tail,
                },
            )
        }
    }

    pub open spec fn universe(l: usize) -> ExprView {
        ExprView { arrow_params: Seq::empty(), head: Ident::Universe(l), tail: Seq::empty() }
    }

    pub open spec fn universe_level(self) -> Option<usize> {
        if self.arrow_params.len() > 0 || self.tail.len() > 0 {
            None
        } else {
            match self.head {
                Ident::Universe(l) => Some(l),
                _ => None,
            }
        }
    }
}

/// Whether no universe in any binder domain or argument of `e` has
/// arguments.
pub open spec fn parts_bare(e: ExprView) -> bool
    decreases e, 0nat,
{
    &&& forall|j: int| 0 <= j < e.arrow_params.len() ==> universes_bare(#[trigger] e.arrow_params[j])
    &&& forall|j: int| 0 <= j < e.tail.len() ==> universes_bare(#[trigger] e.tail[j])
}

/// Whether no universe in `e` has arguments.
pub open spec fn universes_bare(e: ExprView) -> bool
    decreases e, 1nat,
{
    &&& e.head is Universe ==> e.tail.len() == 0
    &&& parts_bare(e)
}

/// Splicing keeps universes bare: a universe never lands in front of
/// arguments.
pub proof fn lemma_insert_bare(this: ExprView, other: ExprView)
    requires
        parts_bare(this),
        universes_bare(other),
        this.insert(other) is Ok,
    ensures
        universes_bare(this.insert(other)->Ok_0),
{
    let r = this.insert(other)->Ok_0;
    assert(r.arrow_params =~= other.arrow_params + this.arrow_params);
    assert(r.tail =~= other.tail + this.tail);
    assert forall|j: int| 0 <= j < r.arrow_params.len() implies universes_bare(
        #[trigger] r.arrow_params[j],
    ) by {
        if j < other.arrow_params.len() {
            assert(r.arrow_params[j] == other.arrow_params[j]);
        } else {
            assert(r.arrow_params[j] == this.arrow_params[j - other.arrow_params.len()]);
        }
    }
    assert forall|j: int| 0 <= j < r.tail.len() implies universes_bare(#[trigger] r.tail[j]) by {
        if j < other.tail.len() {
            assert(r.tail[j] == other.tail[j]);
        } else {
            assert(r.tail[j] == this.tail[j - other.tail.len()]);
        }
    }
}

/// Whether every global in any binder domain or argument of `e` lies
/// below `n`.
pub open spec fn parts_below(e: ExprView, n: nat) -> bool
    decreases e, 0nat,
{
    &&& forall|j: int|
        0 <= j < e.arrow_params.len() ==> globals_below(#[trigger] e.arrow_params[j], n)
    &&& forall|j: int| 0 <= j < e.tail.len() ==> globals_below(#[trigger] e.tail[j], n)
}

/// Whether every global that `e` refers to lies below `n`.
pub open spec fn globals_below(e: ExprView, n: nat) -> bool
    decreases e, 1nat,
{
    &&& e.head matches Ident::Global(i) ==> i < n
    &&& parts_below(e, n)
}

/// A term whose globals lie below `n` has them below any greater bound.
pub proof fn lemma_below_mono(e: ExprView, n: nat, m: nat)
    requires
        globals_below(e, n),
        n <= m,
    ensures
        globals_below(e, m),
    decreases e,
{
    assert forall|j: int| 0 <= j < e.arrow_params.len() implies globals_below(
        #[trigger] e.arrow_params[j],
        m,
    ) by {
        lemma_below_mono(e.arrow_params[j], n, m);
    }
    assert forall|j: int| 0 <= j < e.tail.len() implies globals_below(#[trigger] e.tail[j], m) by {
        lemma_below_mono(e.tail[j], n, m);
    }
}

/// Splicing brings in no global but those of its two terms.
pub proof fn lemma_insert_below(this: ExprView, other: ExprView, n: nat)
    requires
        parts_below(this, n),
        globals_below(other, n),
        this.insert(other) is Ok,
    ensures
        globals_below(this.insert(other)->Ok_0, n),
{
    let r = this.insert(other)->Ok_0;
    assert(r.arrow_params =~= other.arrow_params + this.arrow_params);
    assert(r.tail =~= other.tail + this.tail);
    assert forall|j: int| 0 <= j < r.arrow_params.len() implies globals_below(
        #[trigger] r.arrow_params[j],
        n,
    ) by {
        if j < other.arrow_params.len() {
            assert(r.arrow_params[j] == other.arrow_params[j]);
        } else {
            assert(r.arrow_params[j] == this.arrow_params[j - other.arrow_params.len()]);
        }
    }
    assert forall|j: int| 0 <= j < r.tail.len() implies globals_below(#[trigger] r.tail[j], n) by {
        if j < other.tail.len() {
            assert(r.tail[j] == other.tail[j]);
        } else {
            assert(r.tail[j] == this.tail[j - other.tail.len()]);
        }
    }
}

} // verus!
