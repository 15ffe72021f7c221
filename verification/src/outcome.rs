//! Sequences of fallible steps: the first failure decides.

use vstd::prelude::*;

verus! {

/// Runs through `rs` from the left: the first error, if there is one, else
/// all the values.
pub open spec fn collect<T, E>(rs: Seq<Result<T, E>>) -> Result<Seq<T>, E>
    decreases rs.len(),
{
    if rs.len() == 0 {
        Ok(Seq::empty())
    } else {
        match rs[0] {
            Err(e) => Err(e),
            Ok(x) => match collect(rs.drop_first()) {
                Err(e) => Err(e),
                Ok(v) => Ok(seq![x] + v),
            },
        }
    }
}

/// Where every step succeeds, `collect` gives the values in order.
pub proof fn lemma_collect_ok<T, E>(rs: Seq<Result<T, E>>, v: Seq<T>)
    requires
        v.len() == rs.len(),
        forall|i: int| 0 <= i < rs.len() ==> rs[i] == Ok::<T, E>(v[i]),
    ensures
        collect(rs) == Ok::<Seq<T>, E>(v),
    decreases rs.len(),
{
    if rs.len() == 0 {
        assert(v =~= Seq::empty());
    } else {
        lemma_collect_ok(rs.drop_first(), v.drop_first());
        assert(seq![v[0]] + v.drop_first() =~= v);
    }
}

/// Where step `k` is the first to fail, `collect` gives its error.
pub proof fn lemma_collect_err<T, E>(rs: Seq<Result<T, E>>, k: int)
    requires
        0 <= k < rs.len(),
        rs[k] is Err,
        forall|i: int| 0 <= i < k ==> rs[i] is Ok,
    ensures
        collect(rs) == Err::<Seq<T>, E>(rs[k]->Err_0),
    decreases rs.len(),
{
    if k > 0 {
        lemma_collect_err(rs.drop_first(), k - 1);
    }
}

/// What a successful `collect` says of every step.
pub proof fn lemma_collect_is_ok<T, E>(rs: Seq<Result<T, E>>)
    requires
        collect(rs) is Ok,
    ensures
        collect(rs)->Ok_0.len() == rs.len(),
        forall|i: int| 0 <= i < rs.len() ==> #[trigger] rs[i] == Ok::<T, E>(collect(rs)->Ok_0[i]),
    decreases rs.len(),
{
    if rs.len() > 0 {
        lemma_collect_is_ok(rs.drop_first());
        let v = collect(rs.drop_first())->Ok_0;
        assert forall|i: int| 0 <= i < rs.len() implies #[trigger] rs[i] == Ok::<T, E>(
            collect(rs)->Ok_0[i],
        ) by {
            if i > 0 {
                assert(rs[i] == rs.drop_first()[i - 1]);
                assert(collect(rs)->Ok_0[i] == v[i - 1]);
            }
        }
    }
}

} // verus!
