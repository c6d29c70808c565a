//! Gathering the outcomes of a list of computations into one outcome.

use vstd::prelude::*;

verus! {

/// The values of `s` where all are present, otherwise nothing.
pub open spec fn all_some<T>(s: Seq<Option<T>>) -> Option<Seq<T>> {
    if forall|i: int| 0 <= i < s.len() ==> #[trigger] s[i] is Some {
        Some(Seq::new(s.len(), |i: int| s[i]->Some_0))
    } else {
        None
    }
}

/// The values of the first `k` outcomes of `s`, or the first error among them.
pub open spec fn all_ok_upto<T, E>(s: Seq<Result<T, E>>, k: int) -> Result<Seq<T>, E>
    decreases k,
{
    if k <= 0 {
        Ok(Seq::empty())
    } else {
        match all_ok_upto(s, k - 1) {
            Err(e) => Err(e),
            Ok(values) => match s[k - 1] {
                Err(e) => Err(e),
                Ok(value) => Ok(values.push(value)),
            },
        }
    }
}

/// The values of `s` where all succeed, otherwise the first error.
pub open spec fn all_ok<T, E>(s: Seq<Result<T, E>>) -> Result<Seq<T>, E> {
    all_ok_upto(s, s.len() as int)
}

/// The first error among `k` outcomes is also the first among more.
pub proof fn lemma_first_error<T, E>(s: Seq<Result<T, E>>, k: int, n: int)
    requires
        0 <= k <= n <= s.len(),
        all_ok_upto(s, k) is Err,
    ensures
        all_ok_upto(s, n) == all_ok_upto(s, k),
    decreases n - k,
{
    if k < n {
        lemma_first_error(s, k + 1, n);
    }
}

/// Where the first `k` outcomes all succeed, their values are gathered in order.
pub proof fn lemma_all_ok_values<T, E>(s: Seq<Result<T, E>>, k: int)
    requires
        0 <= k <= s.len(),
        all_ok_upto(s, k) is Ok,
    ensures
        all_ok_upto(s, k)->Ok_0.len() == k,
        forall|i: int|
            0 <= i < k ==> #[trigger] s[i] is Ok && all_ok_upto(s, k)->Ok_0[i] == s[i]->Ok_0,
    decreases k,
{
    if k > 0 {
        lemma_all_ok_values(s, k - 1);
    }
}

/// Where the first `k` outcomes all succeed, so does gathering them.
pub proof fn lemma_all_ok_succeeds<T, E>(s: Seq<Result<T, E>>, k: int)
    requires
        0 <= k <= s.len(),
        forall|i: int| 0 <= i < k ==> #[trigger] s[i] is Ok,
    ensures
        all_ok_upto(s, k) is Ok,
    decreases k,
{
    if k > 0 {
        lemma_all_ok_succeeds(s, k - 1);
    }
}

} // verus!
