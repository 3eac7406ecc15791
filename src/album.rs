//! Album aggregation: the album DR, the number of workers, and putting the
//! per-file results of the workers back into file order.

use vstd::prelude::*;

verus! {

/// Sum of the track DR values.
pub open spec fn dr_sum(s: Seq<u32>) -> nat
    decreases s.len(),
{
    if s.len() == 0 {
        0
    } else {
        dr_sum(s.drop_last()) + s.last() as nat
    }
}

/// `sum / n` rounded to the nearest integer, halves rounded up.
pub open spec fn rounded_mean(sum: nat, n: nat) -> nat
    recommends
        n >= 1,
{
    (2 * sum + n) / (2 * n)
}

/// The album DR of tracks with the given DR values: the rounded mean, or 0
/// for no tracks.
pub open spec fn album_dr_spec(drs: Seq<u32>) -> nat {
    if drs.len() == 0 {
        0
    } else {
        rounded_mean(dr_sum(drs), drs.len())
    }
}

proof fn lemma_dr_sum_bound(s: Seq<u32>)
    ensures
        dr_sum(s) <= s.len() * (u32::MAX as nat),
    decreases s.len(),
{
    if s.len() > 0 {
        lemma_dr_sum_bound(s.drop_last());
        assert((s.len() - 1) * (u32::MAX as nat) + u32::MAX as nat == s.len() * (u32::MAX as nat))
            by (nonlinear_arith);
    }
}

/// The album DR: the arithmetic mean of the track DR values rounded to the
/// nearest integer (halves away from zero), or 0 when there are no tracks.
pub fn album_dr(drs: &Vec<u32>) -> (r: u32)
    ensures
        r == album_dr_spec(drs@),
{
    let n = drs.len();
    if n == 0 {
        return 0;
    }
    let mut sum: u128 = 0;
    let mut i: usize = 0;
    while i < n
        invariant
            i <= n,
            n == drs@.len(),
            sum == dr_sum(drs@.take(i as int)),
        decreases n - i,
    {
        proof {
            assert(drs@.take(i + 1).drop_last() =~= drs@.take(i as int));
            lemma_dr_sum_bound(drs@.take(i as int));
            assert(i * (u32::MAX as nat) <= 0x1_0000_0000_0000_0000 * 0x1_0000_0000) by (nonlinear_arith)
                requires i <= usize::MAX;
        }
        sum = sum + drs[i] as u128;
        i = i + 1;
    }
    proof {
        assert(drs@.take(n as int) =~= drs@);
        lemma_dr_sum_bound(drs@);
        assert(sum <= 0x1_0000_0000_0000_0000 * 0x1_0000_0000) by (nonlinear_arith)
            requires sum <= n * (u32::MAX as nat), n <= usize::MAX;
        assert((2 * sum + n) / (2 * n as int) <= u32::MAX) by (nonlinear_arith)
            requires sum <= n * (u32::MAX as nat), n >= 1;
    }
    let q = (2 * sum + n as u128) / (2 * n as u128);
    q as u32
}

/// The album DR is the nearest integer to the mean track DR: it lies within
/// one half of `Σ dr / count`, a mean exactly halfway rounding up.
pub proof fn lemma_album_dr_is_rounded_mean(drs: Seq<u32>)
    requires
        drs.len() >= 1,
    ensures
        ({
            let r = album_dr_spec(drs);
            let n = drs.len();
            &&& n * (2 * r) <= 2 * dr_sum(drs) + n
            &&& 2 * dr_sum(drs) + n < n * (2 * r + 2)
        }),
{
    let r = album_dr_spec(drs);
    let n = drs.len();
    let x = 2 * dr_sum(drs) + n;
    let d = 2 * n;
    assert(r == x / d);
    assert(d * r <= x < d * r + d) by (nonlinear_arith)
        requires r == x / d, d >= 2;
    assert(n * (2 * r) == d * r && n * (2 * r + 2) == d * r + d) by (nonlinear_arith)
        requires d == 2 * n;
}

/// Number of workers for `jobs` requested (a request of zero counts as
/// one) over `files` files: never more workers than files.
pub fn worker_count(jobs: usize, files: usize) -> (r: usize)
    ensures
        r == if jobs == 0 {
            if files < 1 { files } else { 1 }
        } else if jobs < files {
            jobs
        } else {
            files
        },
        files >= 1 ==> 1 <= r <= files,
{
    let j = if jobs == 0 {
        1
    } else {
        jobs
    };
    if j < files {
        j
    } else {
        files
    }
}

/// The indices of `parts` are below `n` and pairwise distinct.
pub open spec fn indices_distinct<R>(parts: Seq<(usize, R)>, n: nat) -> bool {
    &&& forall|j: int| 0 <= j < parts.len() ==> (#[trigger] parts[j]).0 < n
    &&& forall|j: int, k: int|
        0 <= j < parts.len() && 0 <= k < parts.len() && j != k ==> (#[trigger] parts[j]).0 != (
        #[trigger] parts[k]).0
}

/// Puts results tagged with their file index into a table indexed by file:
/// slot `i` holds the result tagged `i`, or nothing when no result has that
/// tag.
pub fn order_by_index<R>(n: usize, parts: Vec<(usize, R)>) -> (r: Vec<Option<R>>)
    requires
        indices_distinct(parts@, n as nat),
    ensures
        r@.len() == n,
        forall|i: int|
            0 <= i < n ==> match #[trigger] r@[i] {
                Some(x) => exists|j: int| 0 <= j < parts@.len() && parts@[j] == (i as usize, x),
                None => forall|j: int| 0 <= j < parts@.len() ==> (#[trigger] parts@[j]).0 != i,
            },
{
    let mut slots: Vec<Option<R>> = Vec::new();
    let mut i: usize = 0;
    while i < n
        invariant
            i <= n,
            slots@.len() == i,
            forall|k: int| 0 <= k < i ==> (#[trigger] slots@[k]) is None,
        decreases n - i,
    {
        slots.push(None);
        i = i + 1;
    }
    let ghost orig = parts@;
    let mut rest = parts;
    let total = rest.len();
    let mut j: usize = 0;
    while rest.len() > 0
        invariant
            total == orig.len(),
            j + rest@.len() == orig.len(),
            rest@ == orig.subrange(j as int, orig.len() as int),
            indices_distinct(orig, n as nat),
            slots@.len() == n,
            forall|k: int|
                0 <= k < n ==> match #[trigger] slots@[k] {
                    Some(x) => exists|m: int| 0 <= m < j && orig[m] == (k as usize, x),
                    None => forall|m: int| 0 <= m < j ==> (#[trigger] orig[m]).0 != k,
                },
        decreases rest@.len(),
    {
        let (idx, res) = rest.remove(0);
        proof {
            assert(orig[j as int] == (idx, res));
        }
        slots[idx] = Some(res);
        proof {
            assert forall|k: int| 0 <= k < n implies match #[trigger] slots@[k] {
                Some(x) => exists|m: int| 0 <= m < j + 1 && orig[m] == (k as usize, x),
                None => forall|m: int| 0 <= m < j + 1 ==> (#[trigger] orig[m]).0 != k,
            } by {
                if k == idx {
                    assert(orig[j as int] == (k as usize, res));
                } else {
                    assert(orig[j as int].0 != k);
                }
            }
        }
        j = j + 1;
    }
    slots
}

/// The successful results of `slots`, in slot order.
pub open spec fn successes<T, E>(slots: Seq<Option<Result<T, E>>>) -> Seq<T>
    decreases slots.len(),
{
    if slots.len() == 0 {
        Seq::empty()
    } else {
        let rest = successes(slots.drop_last());
        match slots.last() {
            Some(Ok(t)) => rest.push(t),
            _ => rest,
        }
    }
}

/// Whether some slot holds a failure.
pub open spec fn has_failure<T, E>(slots: Seq<Option<Result<T, E>>>) -> bool {
    exists|i: int| 0 <= i < slots.len() && (#[trigger] slots[i]) matches Some(Err(_))
}

/// The position of the first failure in `slots`.
pub open spec fn first_failure_at<T, E>(slots: Seq<Option<Result<T, E>>>, i: int) -> bool {
    &&& 0 <= i < slots.len()
    &&& slots[i] matches Some(Err(_))
    &&& forall|k: int| 0 <= k < i ==> !((#[trigger] slots[k]) matches Some(Err(_)))
}

/// The successful results in slot order, dropping failures and empty slots.
pub fn collect_successes<T, E>(slots: Vec<Option<Result<T, E>>>) -> (r: Vec<T>)
    ensures
        r@ == successes(slots@),
{
    let ghost orig = slots@;
    let mut rest = slots;
    let total = rest.len();
    let mut out: Vec<T> = Vec::new();
    let mut i: usize = 0;
    while rest.len() > 0
        invariant
            total == orig.len(),
            i + rest@.len() == orig.len(),
            rest@ == orig.subrange(i as int, orig.len() as int),
            out@ == successes(orig.take(i as int)),
        decreases rest@.len(),
    {
        let slot = rest.remove(0);
        proof {
            assert(orig.take(i + 1).drop_last() =~= orig.take(i as int));
            assert(orig.take(i + 1).last() == slot);
        }
        match slot {
            Some(Ok(t)) => {
                out.push(t);
            },
            _ => {},
        }
        i = i + 1;
    }
    proof {
        assert(orig.take(orig.len() as int) =~= orig);
    }
    out
}

/// The results in slot order when none failed; otherwise the first failure
/// in slot order. Empty slots are passed over.
pub fn collect_all<T, E>(slots: Vec<Option<Result<T, E>>>) -> (r: Result<Vec<T>, E>)
    ensures
        r matches Ok(v) ==> !has_failure(slots@) && v@ == successes(slots@),
        r matches Err(e) ==> exists|i: int| first_failure_at(slots@, i) && slots@[i] == Some(Err::<T, E>(e)),
{
    let ghost orig = slots@;
    let mut rest = slots;
    let total = rest.len();
    let mut out: Vec<T> = Vec::new();
    let mut i: usize = 0;
    while rest.len() > 0
        invariant
            total == orig.len(),
            i + rest@.len() == orig.len(),
            rest@ == orig.subrange(i as int, orig.len() as int),
            out@ == successes(orig.take(i as int)),
            forall|k: int| 0 <= k < i ==> !((#[trigger] orig[k]) matches Some(Err(_))),
            orig == slots@,
        decreases rest@.len(),
    {
        let slot = rest.remove(0);
        proof {
            assert(orig.take(i + 1).drop_last() =~= orig.take(i as int));
            assert(orig.take(i + 1).last() == slot);
            assert(orig[i as int] == slot);
        }
        match slot {
            Some(Ok(t)) => {
                out.push(t);
            },
            Some(Err(e)) => {
                proof {
                    assert(first_failure_at(orig, i as int));
                    assert(orig[i as int] == Some(Err::<T, E>(e)));
                    assert(exists|k: int| first_failure_at(orig, k) && orig[k] == Some(Err::<T, E>(e)));
                }
                return Err(e);
            },
            None => {},
        }
        i = i + 1;
    }
    proof {
        assert(orig.take(orig.len() as int) =~= orig);
    }
    Ok(out)
}

} // verus!
