//! Keeping the best `k` of a stream of candidates in a sorted vector.
//! The candidates are numbered; `lt(a, b)` says that `a` is better than
//! `b`, and `ok(j)` which numbers are candidates at all.
use vstd::prelude::*;

verus! {

/// `lt` is transitive.
pub open spec fn transitive(lt: spec_fn(int, int) -> bool) -> bool {
    forall|a: int, b: int, c: int| #[trigger] lt(a, b) && #[trigger] lt(b, c) ==> lt(a, c)
}

/// `s` is in strictly ascending order of `lt`.
pub open spec fn sorted_by(lt: spec_fn(int, int) -> bool, s: Seq<usize>) -> bool {
    forall|t: int, u: int| 0 <= t < u < s.len() ==> lt(#[trigger] s[t] as int, #[trigger] s[u] as int)
}

/// `top` holds the best `k` candidates below `i` (all of them if there are
/// fewer), best first.
pub open spec fn ranks_prefix(
    lt: spec_fn(int, int) -> bool,
    ok: spec_fn(int) -> bool,
    k: int,
    top: Seq<usize>,
    i: int,
) -> bool {
    &&& top.len() <= k
    &&& forall|t: int| 0 <= t < top.len() ==> #[trigger] top[t] < i && ok(top[t] as int)
    &&& sorted_by(lt, top)
    &&& forall|j: int|
        #![trigger ok(j)]
        0 <= j < i && ok(j) && !top.contains(j as usize) ==> top.len() == k && forall|t: int|
            0 <= t < top.len() ==> lt(#[trigger] top[t] as int, j)
}

/// Candidate `i` left out keeps the ranking of the candidates below it.
pub proof fn lemma_step_skip(lt: spec_fn(int, int) -> bool, ok: spec_fn(int) -> bool, k: int, top: Seq<usize>, i: int)
    requires
        ranks_prefix(lt, ok, k, top, i),
        !ok(i) || (top.len() == k && forall|t: int| 0 <= t < top.len() ==> lt(#[trigger] top[t] as int, i)),
    ensures
        ranks_prefix(lt, ok, k, top, i + 1),
{
}

/// Candidate `i` put in at its place `p`, the worst one dropped when
/// there are more than `k`, ranks the candidates up to `i`.
pub proof fn lemma_step_insert(
    lt: spec_fn(int, int) -> bool,
    ok: spec_fn(int) -> bool,
    k: int,
    top: Seq<usize>,
    p: int,
    i: usize,
    next: Seq<usize>,
)
    requires
        transitive(lt),
        ranks_prefix(lt, ok, k, top, i as int),
        ok(i as int),
        0 <= p <= top.len(),
        forall|t: int| 0 <= t < p ==> lt(#[trigger] top[t] as int, i as int),
        p < top.len() ==> lt(i as int, top[p] as int),
        top.len() < k || p < top.len(),
        next == (if top.len() < k { top.insert(p, i) } else { top.insert(p, i).take(k) }),
    ensures
        ranks_prefix(lt, ok, k, next, i + 1),
{
    let ins = top.insert(p, i);
    assert forall|t: int| 0 <= t < ins.len() implies #[trigger] ins[t] == if t < p {
        top[t]
    } else if t == p {
        i
    } else {
        top[t - 1]
    } by {}
    assert forall|t: int, u: int| 0 <= t < u < ins.len() implies lt(#[trigger] ins[t] as int, #[trigger] ins[u] as int) by {
        if t == p {
            if u - 1 > p {
                assert(lt(top[p] as int, top[u - 1] as int));
            }
        } else if t < p && u > p {
            if u - 1 > p {
                assert(lt(top[p] as int, top[u - 1] as int));
            }
            assert(lt(top[t] as int, i as int));
        }
    }
    assert forall|t: int| 0 <= t < next.len() implies #[trigger] next[t] == ins[t] by {}
    assert forall|t: int| 0 <= t < next.len() implies #[trigger] next[t] < i + 1 && ok(next[t] as int) by {
        assert(next[t] == ins[t]);
    }
    assert forall|t: int, u: int| 0 <= t < u < next.len() implies lt(#[trigger] next[t] as int, #[trigger] next[u] as int) by {
        assert(next[t] == ins[t] && next[u] == ins[u]);
    }
    assert forall|j: int|
        #![trigger ok(j)]
        0 <= j < i + 1 && ok(j) && !next.contains(j as usize) implies next.len() == k && forall|t: int|
            0 <= t < next.len() ==> lt(#[trigger] next[t] as int, j) by {
        if p < next.len() {
            assert(next[p] == i);
        }
        if j == i {
            assert(next.contains(j as usize));
        }
        if top.contains(j as usize) {
            let u = choose|u: int| 0 <= u < top.len() && top[u] == j as usize;
            let u2 = if u < p { u } else { u + 1 };
            assert(ins[u2] == j as usize);
            if u2 < next.len() {
                assert(next[u2] == j as usize);
            }
            assert forall|t: int| 0 <= t < next.len() implies lt(#[trigger] next[t] as int, j) by {
                assert(next[t] == ins[t]);
            }
        } else {
            assert forall|t: int| 0 <= t < next.len() implies lt(#[trigger] next[t] as int, j) by {
                assert(next[t] == ins[t]);
                if t == p {
                    assert(lt(top[p] as int, j));
                } else if t > p {
                    assert(ins[t] == top[t - 1]);
                }
            }
        }
    }
}

} // verus!
