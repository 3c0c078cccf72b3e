//! Finite sums over sequences of vertex ids, and the facts about them the graph needs.
use vstd::prelude::*;

verus! {

/// `f(x)` summed over the ids of `ids`.
pub open spec fn sum_of(ids: Seq<u32>, f: spec_fn(u32) -> int) -> int
    decreases ids.len(),
{
    if ids.len() == 0 {
        0
    } else {
        sum_of(ids.drop_last(), f) + f(ids.last())
    }
}

/// Sums of functions that agree on the ids are equal.
pub proof fn lemma_sum_ext(ids: Seq<u32>, f: spec_fn(u32) -> int, g: spec_fn(u32) -> int)
    requires
        forall|i: int| 0 <= i < ids.len() ==> f(#[trigger] ids[i]) == g(ids[i]),
    ensures
        sum_of(ids, f) == sum_of(ids, g),
    decreases ids.len(),
{
    if ids.len() > 0 {
        lemma_sum_ext(ids.drop_last(), f, g);
        assert(f(ids[ids.len() - 1]) == g(ids[ids.len() - 1]));
    }
}

/// Changing the summand at one id changes the sum by the same amount.
pub proof fn lemma_sum_point(
    ids: Seq<u32>,
    f: spec_fn(u32) -> int,
    g: spec_fn(u32) -> int,
    x: u32,
)
    requires
        ids.no_duplicates(),
        forall|i: int| 0 <= i < ids.len() && ids[i] != x ==> f(#[trigger] ids[i]) == g(ids[i]),
    ensures
        sum_of(ids, g) == sum_of(ids, f) + if ids.contains(x) {
            g(x) - f(x)
        } else {
            0
        },
    decreases ids.len(),
{
    if ids.len() > 0 {
        let init = ids.drop_last();
        assert forall|i: int, j: int| 0 <= i < j < init.len() implies init[i] != init[j] by {
            assert(ids[i] != ids[j]);
        }
        assert forall|i: int| 0 <= i < init.len() && init[i] != x implies f(
            #[trigger] init[i],
        ) == g(init[i]) by {
            assert(init[i] == ids[i]);
        }
        lemma_sum_point(init, f, g, x);
        let last = ids.last();
        if last == x {
            assert(!init.contains(x)) by {
                if init.contains(x) {
                    let k = choose|k: int| 0 <= k < init.len() && init[k] == x;
                    assert(ids[k] == ids[ids.len() - 1]);
                }
            }
            assert(ids.contains(x)) by {
                assert(ids[ids.len() - 1] == x);
            }
        } else {
            assert(f(ids[ids.len() - 1]) == g(ids[ids.len() - 1]));
            assert(ids.contains(x) == init.contains(x)) by {
                if ids.contains(x) {
                    let k = choose|k: int| 0 <= k < ids.len() && ids[k] == x;
                    assert(init[k] == x);
                }
                if init.contains(x) {
                    let k = choose|k: int| 0 <= k < init.len() && init[k] == x;
                    assert(ids[k] == x);
                }
            }
        }
    }
}

/// A sum of non-negative summands is at least as large as each summand.
pub proof fn lemma_sum_ge_term(ids: Seq<u32>, f: spec_fn(u32) -> int, x: u32)
    requires
        forall|i: int| 0 <= i < ids.len() ==> f(#[trigger] ids[i]) >= 0,
    ensures
        sum_of(ids, f) >= 0,
        ids.contains(x) ==> sum_of(ids, f) >= f(x),
    decreases ids.len(),
{
    if ids.len() > 0 {
        let init = ids.drop_last();
        assert forall|i: int| 0 <= i < init.len() implies f(#[trigger] init[i]) >= 0 by {
            assert(init[i] == ids[i]);
        }
        lemma_sum_ge_term(init, f, x);
        assert(f(ids[ids.len() - 1]) >= 0);
        if ids.contains(x) && ids.last() != x {
            let k = choose|k: int| 0 <= k < ids.len() && ids[k] == x;
            assert(init[k] == x);
        }
    }
}

/// Sums are monotone in their summands.
pub proof fn lemma_sum_le(ids: Seq<u32>, f: spec_fn(u32) -> int, g: spec_fn(u32) -> int)
    requires
        forall|i: int| 0 <= i < ids.len() ==> f(#[trigger] ids[i]) <= g(ids[i]),
    ensures
        sum_of(ids, f) <= sum_of(ids, g),
    decreases ids.len(),
{
    if ids.len() > 0 {
        let init = ids.drop_last();
        assert forall|i: int| 0 <= i < init.len() implies f(#[trigger] init[i]) <= g(init[i]) by {
            assert(init[i] == ids[i]);
        }
        lemma_sum_le(init, f, g);
        assert(f(ids[ids.len() - 1]) <= g(ids[ids.len() - 1]));
    }
}


/// A sum over a prefix is the sum over the shorter prefix plus the next summand.
pub proof fn lemma_sum_prefix_step(ids: Seq<u32>, f: spec_fn(u32) -> int, i: int)
    requires
        0 <= i < ids.len(),
    ensures
        sum_of(ids.subrange(0, i + 1), f) == sum_of(ids.subrange(0, i), f) + f(ids[i]),
{
    assert(ids.subrange(0, i + 1).drop_last() =~= ids.subrange(0, i));
}

/// With non-negative summands, a sum over a prefix is at most the whole sum.
pub proof fn lemma_sum_prefix_le(ids: Seq<u32>, f: spec_fn(u32) -> int, i: int)
    requires
        0 <= i <= ids.len(),
        forall|k: int| 0 <= k < ids.len() ==> f(#[trigger] ids[k]) >= 0,
    ensures
        sum_of(ids.subrange(0, i), f) <= sum_of(ids, f),
    decreases ids.len() - i,
{
    if i < ids.len() {
        lemma_sum_prefix_le(ids, f, i + 1);
        lemma_sum_prefix_step(ids, f, i);
    } else {
        assert(ids.subrange(0, i) =~= ids);
    }
}

/// Sums scale with their summands.
pub proof fn lemma_sum_scale(ids: Seq<u32>, f: spec_fn(u32) -> int, g: spec_fn(u32) -> int, m: int)
    requires
        forall|k: int| 0 <= k < ids.len() ==> #[trigger] g(ids[k]) == m * f(ids[k]),
    ensures
        sum_of(ids, g) == m * sum_of(ids, f),
    decreases ids.len(),
{
    if ids.len() > 0 {
        let init = ids.drop_last();
        assert forall|k: int| 0 <= k < init.len() implies #[trigger] g(init[k]) == m * f(init[k]) by {
            assert(init[k] == ids[k]);
        }
        lemma_sum_scale(init, f, g, m);
        assert(g(ids[ids.len() - 1]) == m * f(ids[ids.len() - 1]));
        assert(m * sum_of(init, f) + m * f(ids.last()) == m * (sum_of(init, f) + f(ids.last()))) by (nonlinear_arith);
    }
}


/// A sum whose summands vanish but at one id of the sequence is that summand.
pub proof fn lemma_sum_single(ids: Seq<u32>, f: spec_fn(u32) -> int, x: u32)
    requires
        ids.no_duplicates(),
        ids.contains(x),
        forall|i: int| 0 <= i < ids.len() && ids[i] != x ==> f(#[trigger] ids[i]) == 0,
    ensures
        sum_of(ids, f) == f(x),
{
    lemma_sum_zero(ids);
    lemma_sum_point(ids, |y: u32| 0int, f, x);
}

pub proof fn lemma_sum_zero(ids: Seq<u32>)
    ensures
        sum_of(ids, |y: u32| 0int) == 0,
    decreases ids.len(),
{
    if ids.len() > 0 {
        lemma_sum_zero(ids.drop_last());
    }
}


/// The sum of differences is the difference of the sums.
pub proof fn lemma_sum_sub(ids: Seq<u32>, f: spec_fn(u32) -> int, g: spec_fn(u32) -> int, h: spec_fn(u32) -> int)
    requires
        forall|k: int| 0 <= k < ids.len() ==> #[trigger] h(ids[k]) == g(ids[k]) - f(ids[k]),
    ensures
        sum_of(ids, h) == sum_of(ids, g) - sum_of(ids, f),
    decreases ids.len(),
{
    if ids.len() > 0 {
        let init = ids.drop_last();
        assert forall|k: int| 0 <= k < init.len() implies #[trigger] h(init[k]) == g(init[k]) - f(init[k]) by {
            assert(init[k] == ids[k]);
        }
        lemma_sum_sub(init, f, g, h);
        assert(h(ids[ids.len() - 1]) == g(ids[ids.len() - 1]) - f(ids[ids.len() - 1]));
    }
}


/// Sums add pointwise.
pub proof fn lemma_sum_add(ids: Seq<u32>, f: spec_fn(u32) -> int, g: spec_fn(u32) -> int, h: spec_fn(u32) -> int)
    requires
        forall|k: int| 0 <= k < ids.len() ==> #[trigger] h(ids[k]) == f(ids[k]) + g(ids[k]),
    ensures
        sum_of(ids, h) == sum_of(ids, f) + sum_of(ids, g),
{
    assert forall|k: int| 0 <= k < ids.len() implies #[trigger] f(ids[k]) == h(ids[k]) - g(ids[k]) by {}
    lemma_sum_sub(ids, g, h, f);
}

/// A double sum can be taken in either order.
pub proof fn lemma_sum_swap(a: Seq<u32>, b: Seq<u32>, f: spec_fn(u32, u32) -> int)
    ensures
        sum_of(a, |v: u32| sum_of(b, |x: u32| f(v, x))) == sum_of(b, |x: u32| sum_of(a, |v: u32| f(v, x))),
    decreases a.len(),
{
    if a.len() == 0 {
        assert forall|k: int| 0 <= k < b.len() implies (|x: u32| sum_of(a, |v: u32| f(v, x)))(#[trigger] b[k]) == (|y: u32| 0int)(b[k]) by {}
        lemma_sum_ext(b, |x: u32| sum_of(a, |v: u32| f(v, x)), |y: u32| 0int);
        lemma_sum_zero(b);
    } else {
        let init = a.drop_last();
        let y = a.last();
        lemma_sum_swap(init, b, f);
        assert forall|k: int| 0 <= k < b.len() implies (|x: u32| sum_of(a, |v: u32| f(v, x)))(#[trigger] b[k]) == (|x: u32| sum_of(init, |v: u32| f(v, x)))(b[k]) + (|x: u32| f(y, x))(b[k]) by {}
        lemma_sum_add(b, |x: u32| sum_of(init, |v: u32| f(v, x)), |x: u32| f(y, x), |x: u32| sum_of(a, |v: u32| f(v, x)));
    }
}

} // verus!
