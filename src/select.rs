//! Descending order, top-k sums and the second-largest element: the
//! order statistics that the DR reduction is made of.

use vstd::prelude::*;
use vstd::relations::{sorted_by, total_ordering};
use vstd::seq_lib::{group_to_multiset_ensures, lemma_sorted_unique};

verus! {

/// The descending order on `u128`.
pub open spec fn desc() -> spec_fn(u128, u128) -> bool {
    |a: u128, b: u128| a >= b
}

/// `s` in descending order.
pub open spec fn sorted_desc(s: Seq<u128>) -> Seq<u128> {
    s.sort_by(desc())
}

/// Sum of all elements of `s`.
pub open spec fn seq_sum(s: Seq<u128>) -> nat
    decreases s.len(),
{
    if s.len() == 0 {
        0
    } else {
        seq_sum(s.drop_last()) + s.last() as nat
    }
}

/// Number of loudest blocks that make up the top 20%: `⌈n / 5⌉`, and at
/// least one.
pub open spec fn top_count(n: nat) -> nat {
    if n == 0 {
        1
    } else {
        (n + 4) / 5
    }
}

/// Sum of the `k` largest elements of `s`.
pub open spec fn top_sum(s: Seq<u128>, k: nat) -> nat {
    seq_sum(sorted_desc(s).take(k as int))
}

/// The second-largest element of `s`, or the largest when `s` has one
/// element.
pub open spec fn second_largest(s: Seq<u128>) -> u128 {
    if s.len() >= 2 {
        sorted_desc(s)[1]
    } else {
        sorted_desc(s)[0]
    }
}

pub proof fn lemma_desc_total()
    ensures
        total_ordering(desc()),
{
}

/// Facts about `sorted_desc`: same elements, same length, descending.
pub proof fn lemma_sorted_desc(s: Seq<u128>)
    ensures
        sorted_desc(s).to_multiset() == s.to_multiset(),
        sorted_desc(s).len() == s.len(),
        sorted_by(sorted_desc(s), desc()),
        forall|x: u128| !s.contains(x) ==> !(#[trigger] sorted_desc(s).contains(x)),
{
    broadcast use group_to_multiset_ensures;

    lemma_desc_total();
    s.lemma_sort_by_ensures(desc());
    assert(sorted_desc(s).len() == sorted_desc(s).to_multiset().len());
}

/// Sorts `v` into descending order; every element stays below `bound`.
pub fn sort_desc(v: &Vec<u128>, Ghost(bound): Ghost<nat>) -> (r: Vec<u128>)
    requires
        forall|i: int| 0 <= i < v@.len() ==> v@[i] <= bound,
    ensures
        r@ == sorted_desc(v@),
        r@.len() == v@.len(),
        forall|i: int| 0 <= i < r@.len() ==> r@[i] <= bound,
{
    broadcast use group_to_multiset_ensures;

    let mut r: Vec<u128> = Vec::new();
    let mut i: usize = 0;
    while i < v.len()
        invariant
            i <= v@.len(),
            sorted_by(r@, desc()),
            r@.to_multiset() == v@.subrange(0, i as int).to_multiset(),
            r@.len() == i,
            forall|k: int| 0 <= k < r@.len() ==> r@[k] <= bound,
            forall|k: int| 0 <= k < v@.len() ==> v@[k] <= bound,
        decreases v@.len() - i,
    {
        let x = v[i];
        let mut j: usize = 0;
        while j < r.len() && r[j] >= x
            invariant
                j <= r@.len(),
                forall|k: int| 0 <= k < j ==> r@[k] >= x,
            decreases r@.len() - j,
        {
            j = j + 1;
        }
        proof {
            assert forall|k: int| j <= k < r@.len() implies r@[k] < x by {
                if k > j {
                    assert(desc()(r@[j as int], r@[k]));
                }
            }
        }
        let ghost old_r = r@;
        r.insert(j, x);
        proof {
            assert(r@ == old_r.insert(j as int, x));
            assert(v@.subrange(0, i + 1) =~= v@.subrange(0, i as int).push(x));
            vstd::seq_lib::to_multiset_insert(old_r, j as int, x);
            vstd::seq_lib::to_multiset_build(v@.subrange(0, i as int), x);
            assert forall|k: int| 0 <= k < r@.len() implies r@[k] <= bound by {
                if k < j {
                    assert(r@[k] == old_r[k]);
                } else if k > j {
                    assert(r@[k] == old_r[k - 1]);
                }
            }
            assert forall|a: int, b: int| 0 <= a < b < r@.len() implies #[trigger] desc()(r@[a], r@[b]) by {
                if a < j && b < j {
                    assert(desc()(old_r[a], old_r[b]));
                } else if a > j && b > j {
                    assert(desc()(old_r[a - 1], old_r[b - 1]));
                } else if a < j && b > j {
                    assert(old_r[a] >= x);
                } else if a > j {
                } else {
                }
            }
        }
        i = i + 1;
    }
    proof {
        assert(v@.subrange(0, v@.len() as int) =~= v@);
        lemma_sorted_desc(v@);
        lemma_desc_total();
        lemma_sorted_unique(r@, sorted_desc(v@), desc());
    }
    r
}

/// Sum of the first `k` elements of `v`.
pub fn prefix_sum(v: &Vec<u128>, k: usize, Ghost(bound): Ghost<nat>) -> (r: u128)
    requires
        k <= v@.len(),
        forall|i: int| 0 <= i < v@.len() ==> v@[i] <= bound,
        k * bound <= u128::MAX,
    ensures
        r == seq_sum(v@.take(k as int)),
{
    let mut sum: u128 = 0;
    let mut i: usize = 0;
    while i < k
        invariant
            i <= k,
            k <= v@.len(),
            forall|j: int| 0 <= j < v@.len() ==> v@[j] <= bound,
            k * bound <= u128::MAX,
            sum == seq_sum(v@.take(i as int)),
            sum <= i * bound,
        decreases k - i,
    {
        proof {
            assert(v@.take(i + 1).drop_last() =~= v@.take(i as int));
            assert((i + 1) * bound <= k * bound) by (nonlinear_arith)
                requires i < k;
            assert(i * bound + bound == (i + 1) * bound) by (nonlinear_arith);
        }
        sum = sum + v[i];
        i = i + 1;
    }
    sum
}

} // verus!
