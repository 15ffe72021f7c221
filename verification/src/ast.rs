//! The surface syntax: what the parser gives and elaboration takes.

use crate::context::texts;
use vstd::prelude::*;

verus! {

/// A type or term as written: a chain of binders that ends in an
/// application, or an application.
#[derive(Debug)]
pub enum Expr {
    Arrow(ArrowExpr),
    Alg(AlgExpr),
}

/// Binders `(x: A) ->` or `A ->`, in order, and what they lead to.
#[derive(Debug)]
pub struct ArrowExpr {
    pub params: Vec<(Option<String>, Expr)>,
    pub output: Box<Expr>,
}

/// A head name applied to arguments.
#[derive(Debug)]
pub struct AlgExpr {
    pub head: String,
    pub tail: Vec<Expr>,
}

/// A line `name : type`.
#[derive(Debug)]
pub struct Annotation {
    pub is_post: bool,
    pub name: String,
    pub typ: Expr,
}

/// A line `name var ... = body`.
#[derive(Debug)]
pub struct Function {
    pub fname: String,
    pub vars: Vec<String>,
    pub body: Expr,
}

/// A parsed line.
#[derive(Debug)]
pub enum Line {
    Annotation(Annotation),
    Function(Function),
}

/// A declaration: an annotation, a definition, or both, and the items of
/// the block indented under the definition.
#[derive(Debug)]
pub struct Item {
    pub annotation: Option<Annotation>,
    pub definition: Option<Function>,
    pub associated: Vec<Item>,
}

/// The mathematical value of an [`Expr`].
pub enum ExprView {
    Arrow { params: Seq<(Option<Seq<char>>, ExprView)>, output: Box<ExprView> },
    Alg { head: Seq<char>, tail: Seq<ExprView> },
}

/// The mathematical value of an [`Annotation`].
pub struct AnnotationView {
    pub is_post: bool,
    pub name: Seq<char>,
    pub typ: ExprView,
}

/// The mathematical value of a [`Function`].
pub struct FunctionView {
    pub fname: Seq<char>,
    pub vars: Seq<Seq<char>>,
    pub body: ExprView,
}

/// The mathematical value of a [`Line`].
pub enum LineView {
    Annotation(AnnotationView),
    Function(FunctionView),
}

/// The mathematical value of an [`Item`].
pub struct ItemView {
    pub annotation: Option<AnnotationView>,
    pub definition: Option<FunctionView>,
    pub associated: Seq<ItemView>,
}

/// The text of a name that may be absent.
pub open spec fn name_view(name: Option<String>) -> Option<Seq<char>> {
    match name {
        Some(s) => Some(s@),
        None => None,
    }
}

impl View for Expr {
    type V = ExprView;

    open spec fn view(&self) -> ExprView
        decreases self,
    {
        match self {
            Expr::Arrow(a) => ExprView::Arrow {
                params: Seq::new(
                    a.params@.len(),
                    |i: int|
                        if 0 <= i < a.params@.len() {
                            (name_view(a.params@[i].0), a.params@[i].1.view())
                        } else {
                            (None, ExprView::Alg { head: Seq::empty(), tail: Seq::empty() })
                        },
                ),
                output: Box::new((*a.output).view()),
            },
            Expr::Alg(a) => ExprView::Alg {
                head: a.head@,
                tail: Seq::new(
                    a.tail@.len(),
                    |i: int|
                        if 0 <= i < a.tail@.len() {
                            a.tail@[i].view()
                        } else {
                            ExprView::Alg { head: Seq::empty(), tail: Seq::empty() }
                        },
                ),
            },
        }
    }
}

/// The values of a sequence of expressions, element by element.
pub open spec fn views(s: Seq<Expr>) -> Seq<ExprView> {
    Seq::new(s.len(), |i: int| s[i]@)
}

/// The values of a sequence of binders, element by element.
pub open spec fn binder_views(s: Seq<(Option<String>, Expr)>) -> Seq<(Option<Seq<char>>, ExprView)> {
    Seq::new(s.len(), |i: int| (name_view(s[i].0), s[i].1@))
}

/// The value of an expression, one level unfolded.
pub broadcast proof fn lemma_view(e: Expr)
    ensures
        #[trigger] e@ == match e {
            Expr::Arrow(a) => ExprView::Arrow {
                params: binder_views(a.params@),
                output: Box::new((*a.output)@),
            },
            Expr::Alg(a) => ExprView::Alg { head: a.head@, tail: views(a.tail@) },
        },
{
    reveal_with_fuel(<Expr as View>::view, 2);
    match e {
        Expr::Arrow(a) => {
            assert(e@->params =~= binder_views(a.params@));
        },
        Expr::Alg(a) => {
            assert(e@->tail =~= views(a.tail@));
        },
    }
}

impl View for Annotation {
    type V = AnnotationView;

    open spec fn view(&self) -> AnnotationView {
        AnnotationView { is_post: self.is_post, name: self.name@, typ: self.typ@ }
    }
}

impl View for Function {
    type V = FunctionView;

    open spec fn view(&self) -> FunctionView {
        FunctionView { fname: self.fname@, vars: texts(self.vars@), body: self.body@ }
    }
}

impl View for Line {
    type V = LineView;

    open spec fn view(&self) -> LineView {
        match self {
            Line::Annotation(a) => LineView::Annotation(a@),
            Line::Function(f) => LineView::Function(f@),
        }
    }
}

/// The value of an annotation that may be absent.
pub open spec fn annotation_view(a: Option<Annotation>) -> Option<AnnotationView> {
    match a {
        Some(a) => Some(a@),
        None => None,
    }
}

/// The value of a definition that may be absent.
pub open spec fn function_view(f: Option<Function>) -> Option<FunctionView> {
    match f {
        Some(f) => Some(f@),
        None => None,
    }
}

impl View for Item {
    type V = ItemView;

    open spec fn view(&self) -> ItemView
        decreases self,
    {
        ItemView {
            annotation: annotation_view(self.annotation),
            definition: function_view(self.definition),
            associated: Seq::new(
                self.associated@.len(),
                |i: int|
                    if 0 <= i < self.associated@.len() {
                        self.associated@[i].view()
                    } else {
                        ItemView { annotation: None, definition: None, associated: Seq::empty() }
                    },
            ),
        }
    }
}

/// The values of a sequence of items, element by element.
pub open spec fn item_views(s: Seq<Item>) -> Seq<ItemView> {
    Seq::new(s.len(), |i: int| s[i]@)
}

/// The value of an item, one level unfolded.
pub broadcast proof fn lemma_item_view(it: Item)
    ensures
        #[trigger] it@ == (ItemView {
            annotation: annotation_view(it.annotation),
            definition: function_view(it.definition),
            associated: item_views(it.associated@),
        }),
{
    reveal_with_fuel(<Item as View>::view, 2);
    assert(it@.associated =~= item_views(it.associated@));
}

} // verus!
