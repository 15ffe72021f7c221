//! Terms as text.

use crate::decimal::{decimal_digits, push_decimal};
use crate::term::{lemma_view, Expr, ExprView, Ident};
use vstd::prelude::*;
use vstd::string::StringExecFns;

verus! {

broadcast use lemma_view;

/// The text of a head: `U`, `g` or `x`, and the number.
pub open spec fn head_text(h: Ident) -> Seq<char> {
    match h {
        Ident::Universe(l) => seq!['U'] + decimal_digits(l as nat),
        Ident::Global(i) => seq!['g'] + decimal_digits(i as nat),
        Ident::Local(i) => seq!['x'] + decimal_digits(i as nat),
    }
}

/// Whether `e` is put in parentheses: always where it has binders, and
/// among arguments also where it has arguments of its own.
pub open spec fn is_grouped(e: ExprView, group_algs: bool) -> bool {
    e.arrow_params.len() > 0 || (group_algs && e.tail.len() > 0)
}

/// `text`, the text of `e`, in parentheses where `e` is grouped.
pub open spec fn wrap(text: Seq<char>, e: ExprView, group_algs: bool) -> Seq<char> {
    if is_grouped(e, group_algs) {
        seq!['('] + text + seq![')']
    } else {
        text
    }
}

/// The text of `e`: each binder domain followed by ` -> `, the head, and
/// each argument after a space.
pub open spec fn render_spec(e: ExprView) -> Seq<char>
    decreases e, 0nat,
{
    render_params(e.arrow_params, e.arrow_params.len()) + head_text(e.head) + render_args(
        e.tail,
        e.tail.len(),
    )
}

/// The text of the first `k` binder domains of `ps`.
pub open spec fn render_params(ps: Seq<ExprView>, k: nat) -> Seq<char>
    decreases ps, k,
{
    if k == 0 || k > ps.len() {
        Seq::empty()
    } else {
        render_params(ps, (k - 1) as nat) + wrap(render_spec(ps[k - 1]), ps[k - 1], false) + seq![
            ' ',
            '-',
            '>',
            ' ',
        ]
    }
}

/// The text of the first `k` arguments of `ts`.
pub open spec fn render_args(ts: Seq<ExprView>, k: nat) -> Seq<char>
    decreases ts, k,
{
    if k == 0 || k > ts.len() {
        Seq::empty()
    } else {
        render_args(ts, (k - 1) as nat) + seq![' '] + wrap(render_spec(ts[k - 1]), ts[k - 1], true)
    }
}

/// The text of `e` as it stands inside another term.
pub open spec fn grouped_spec(e: ExprView, group_algs: bool) -> Seq<char> {
    wrap(render_spec(e), e, group_algs)
}

impl Expr {
    /// Appends the text of the term to `out`.
    pub fn fmt(&self, out: &mut String)
        ensures
            final(out)@ == old(out)@ + render_spec(self@),
        decreases self, 0nat,
    {
        let ghost before = out@;
        let mut i: usize = 0;
        while i < self.arrow_params.len()
            invariant
                i <= self.arrow_params.len(),
                out@ == before + render_params(self@.arrow_params, i as nat),
            decreases self.arrow_params.len() - i,
        {
            let ghost sofar = out@;
            self.arrow_params[i].write_grouped(out, false);
            proof {
                reveal_strlit(" -> ");
            }
            out.append(" -> ");
            proof {
                lemma_view(*self);
                assert(" -> "@ =~= seq![' ', '-', '>', ' ']);
                assert(out@ =~= before + render_params(self@.arrow_params, (i + 1) as nat));
            }
            i += 1;
        }
        let ghost mid = out@;
        match self.head {
            Ident::Universe(l) => {
                proof {
                    reveal_strlit("U");
                }
                out.append("U");
                push_decimal(out, l);
                assert(out@ =~= mid + head_text(self.head)) by {
                    assert("U"@ =~= seq!['U']);
                }
            },
            Ident::Local(i) => {
                proof {
                    reveal_strlit("x");
                }
                out.append("x");
                push_decimal(out, i);
                assert(out@ =~= mid + head_text(self.head)) by {
                    assert("x"@ =~= seq!['x']);
                }
            },
            Ident::Global(i) => {
                proof {
                    reveal_strlit("g");
                }
                out.append("g");
                push_decimal(out, i);
                assert(out@ =~= mid + head_text(self.head)) by {
                    assert("g"@ =~= seq!['g']);
                }
            },
        }
        let ghost headed = out@;
        let mut k: usize = 0;
        while k < self.tail.len()
            invariant
                k <= self.tail.len(),
                out@ == headed + render_args(self@.tail, k as nat),
            decreases self.tail.len() - k,
        {
            proof {
                reveal_strlit(" ");
            }
            out.append(" ");
            self.tail[k].write_grouped(out, true);
            proof {
                lemma_view(*self);
                assert(" "@ =~= seq![' ']);
                assert(out@ =~= headed + render_args(self@.tail, (k + 1) as nat));
            }
            k += 1;
        }
        assert(out@ =~= before + render_spec(self@));
    }

    /// Appends the text of the term to `out`, in parentheses where it is
    /// grouped.
    pub fn write_grouped(&self, out: &mut String, group_algs: bool)
        ensures
            final(out)@ == old(out)@ + grouped_spec(self@, group_algs),
        decreases self, 1nat,
    {
        if self.arrow_params.len() > 0 || (group_algs && self.tail.len() > 0) {
            proof {
                reveal_strlit("(");
                reveal_strlit(")");
            }
            out.append("(");
            self.fmt(out);
            out.append(")");
            assert(out@ =~= old(out)@ + grouped_spec(self@, group_algs)) by {
                assert("("@ =~= seq!['(']);
                assert(")"@ =~= seq![')']);
            }
        } else {
            self.fmt(out);
        }
    }

    /// The text of the term.
    pub fn to_string(&self) -> (r: String)
        ensures
            r@ == render_spec(self@),
    {
        let mut out = String::new();
        self.fmt(&mut out);
        assert(out@ =~= render_spec(self@));
        out
    }
}

} // verus!
