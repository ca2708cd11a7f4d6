//! N-term AND over sorted local-id lists of one block, and NOT-exclusion by
//! merge-difference.
use vstd::prelude::*;
use crate::postings::{lemma_take_contains, strictly_increasing};
use crate::intersect::{
    common,
    intersect_block,
    lemma_common_is_intersection,
    match_docs,
    IntersectStrategy,
    PairMatch,
};

verus! {

/// Every list is strictly increasing.
pub open spec fn all_increasing(lists: Seq<Vec<u16>>) -> bool {
    forall|k: int| 0 <= k < lists.len() ==> strictly_increasing(#[trigger] lists[k]@)
}

/// `x` occurs in every list.
pub open spec fn in_all(lists: Seq<Vec<u16>>, x: u16) -> bool {
    forall|k: int| 0 <= k < lists.len() ==> (#[trigger] lists[k])@.contains(x)
}

/// `x` occurs in some list.
pub open spec fn in_any(lists: Seq<Vec<u16>>, x: u16) -> bool {
    exists|k: int| 0 <= k < lists.len() && (#[trigger] lists[k])@.contains(x)
}

/// The ids of a match list, in order.
pub fn docs_of(m: &Vec<PairMatch>) -> (r: Vec<u16>)
    ensures
        r@ == match_docs(m@),
{
    let mut r: Vec<u16> = Vec::with_capacity(m.len());
    let mut i: usize = 0;
    while i < m.len()
        invariant
            i <= m@.len(),
            r@ == match_docs(m@).take(i as int),
        decreases m@.len() - i,
    {
        r.push(m[i].doc);
        i += 1;
        assert(r@ =~= match_docs(m@).take(i as int));
    }
    assert(r@ =~= match_docs(m@));
    r
}

fn copy_ids(s: &[u16]) -> (r: Vec<u16>)
    ensures
        r@ == s@,
{
    let mut r: Vec<u16> = Vec::with_capacity(s.len());
    let mut i: usize = 0;
    while i < s.len()
        invariant
            i <= s@.len(),
            r@ == s@.take(i as int),
        decreases s@.len() - i,
    {
        r.push(s[i]);
        i += 1;
        assert(r@ =~= s@.take(i as int));
    }
    assert(r@ =~= s@);
    r
}

/// Index of a shortest list.
fn shortest(lists: &Vec<Vec<u16>>) -> (m: usize)
    requires
        lists@.len() >= 1,
    ensures
        m < lists@.len(),
        forall|k: int| 0 <= k < lists@.len() ==> lists@[m as int]@.len() <= (#[trigger] lists@[k])@.len(),
{
    let mut m: usize = 0;
    let mut k: usize = 1;
    while k < lists.len()
        invariant
            1 <= k <= lists@.len(),
            m < k,
            forall|j: int| 0 <= j < k ==> lists@[m as int]@.len() <= (#[trigger] lists@[j])@.len(),
        decreases lists@.len() - k,
    {
        if lists[k].len() < lists[m].len() {
            m = k;
        }
        k += 1;
    }
    m
}

/// AND of the required lists: the ids that every list holds, ascending. The
/// shortest list is taken first so that the running candidate set is small
/// from the start; the order does not change the result.
pub fn intersect_all(lists: &Vec<Vec<u16>>, strategy: IntersectStrategy) -> (r: Vec<u16>)
    requires
        lists@.len() >= 1,
        all_increasing(lists@),
    ensures
        strictly_increasing(r@),
        forall|x: u16| r@.contains(x) <==> in_all(lists@, x),
{
    let m = shortest(lists);
    let mut running = copy_ids(lists[m].as_slice());
    assert(strictly_increasing(lists@[m as int]@));
    let mut k: usize = 0;
    while k < lists.len()
        invariant
            m < lists@.len(),
            k <= lists@.len(),
            all_increasing(lists@),
            strictly_increasing(running@),
            forall|x: u16|
                running@.contains(x) <==> (lists@[m as int]@.contains(x) && forall|j: int|
                    0 <= j < k ==> (#[trigger] lists@[j])@.contains(x)),
        decreases lists@.len() - k,
    {
        if k != m {
            assert(strictly_increasing(lists@[k as int]@));
            let matches = intersect_block(strategy, running.as_slice(), lists[k].as_slice());
            let next = docs_of(&matches);
            proof {
                lemma_common_is_intersection(running@, lists@[k as int]@);
                assert forall|x: u16|
                    next@.contains(x) <==> (lists@[m as int]@.contains(x) && forall|j: int|
                        0 <= j < k + 1 ==> (#[trigger] lists@[j])@.contains(x)) by {
                    assert(next@.contains(x) <==> (running@.contains(x) && lists@[k as int]@.contains(x)));
                }
            }
            running = next;
        } else {
            assert forall|x: u16|
                running@.contains(x) <==> (lists@[m as int]@.contains(x) && forall|j: int|
                    0 <= j < k + 1 ==> (#[trigger] lists@[j])@.contains(x)) by {
            }
        }
        k += 1;
    }
    assert forall|x: u16| running@.contains(x) <==> in_all(lists@, x) by {
    }
    running
}

/// Merge-difference: the ids of `a` that `b` does not hold, ascending.
pub fn subtract_sorted(a: &[u16], b: &[u16]) -> (r: Vec<u16>)
    requires
        strictly_increasing(a@),
        strictly_increasing(b@),
    ensures
        strictly_increasing(r@),
        forall|x: u16| r@.contains(x) <==> (a@.contains(x) && !b@.contains(x)),
{
    let mut out: Vec<u16> = Vec::new();
    let mut i_a: usize = 0;
    let mut i_b: usize = 0;
    while i_a < a.len()
        invariant
            i_a <= a@.len(),
            i_b <= b@.len(),
            strictly_increasing(a@),
            strictly_increasing(b@),
            strictly_increasing(out@),
            forall|x: u16| out@.contains(x) <==> (a@.take(i_a as int).contains(x) && !b@.contains(x)),
            forall|j: int, k: int| 0 <= j < out@.len() && i_a <= k < a@.len() ==> out@[j] < a@[k],
            forall|j: int, k: int| 0 <= j < i_b && i_a <= k < a@.len() ==> b@[j] < a@[k],
        decreases a@.len() - i_a + b@.len() - i_b,
    {
        let x = a[i_a];
        if i_b < b.len() && b[i_b] < x {
            i_b += 1;
        } else {
            proof {
                lemma_take_contains(a@, i_a as int);
            }
            if i_b < b.len() && b[i_b] == x {
                assert(b@.contains(x)) by {
                    assert(b@[i_b as int] == x);
                }
                assert forall|y: u16|
                    out@.contains(y) <==> (a@.take(i_a + 1).contains(y) && !b@.contains(y)) by {
                    assert(a@.take(i_a + 1).contains(y) <==> (a@.take(i_a as int).contains(y) || y == x));
                    assert(out@.contains(y) <==> (a@.take(i_a as int).contains(y) && !b@.contains(y)));
                }
            } else {
                assert(!b@.contains(x)) by {
                    assert forall|j: int| 0 <= j < b@.len() implies b@[j] != x by {
                        if j > i_b {
                            assert(b@[i_b as int] < b@[j]);
                        }
                    }
                }
                let ghost prev = out@;
                out.push(x);
                proof {
                    assert forall|y: u16| out@.contains(y) <==> (prev.contains(y) || y == x) by {
                        if out@.contains(y) {
                            let j = choose|j: int| 0 <= j < out@.len() && out@[j] == y;
                            if j < prev.len() {
                                assert(prev[j] == y);
                            }
                        }
                        if prev.contains(y) {
                            let j = choose|j: int| 0 <= j < prev.len() && prev[j] == y;
                            assert(out@[j] == y);
                        }
                        if y == x {
                            assert(out@[prev.len() as int] == y);
                        }
                    }
                    assert forall|y: u16|
                        out@.contains(y) <==> (a@.take(i_a + 1).contains(y) && !b@.contains(y)) by {
                        assert(a@.take(i_a + 1).contains(y) <==> (a@.take(i_a as int).contains(y) || y == x));
                        assert(prev.contains(y) <==> (a@.take(i_a as int).contains(y) && !b@.contains(y)));
                    }
                }
            }
            i_a += 1;
        }
    }
    assert(a@.take(a@.len() as int) =~= a@);
    out
}

/// The ids of the required lists that no exclusion list holds, ascending.
pub fn intersect_query(
    required: &Vec<Vec<u16>>,
    excluded: &Vec<Vec<u16>>,
    strategy: IntersectStrategy,
) -> (r: Vec<u16>)
    requires
        required@.len() >= 1,
        all_increasing(required@),
        all_increasing(excluded@),
    ensures
        strictly_increasing(r@),
        forall|x: u16| r@.contains(x) <==> (in_all(required@, x) && !in_any(excluded@, x)),
        forall|x: u16, k: int|
            0 <= k < excluded@.len() && #[trigger] excluded@[k]@.contains(x) ==> !r@.contains(x),
{
    let mut running = intersect_all(required, strategy);
    let mut k: usize = 0;
    while k < excluded.len()
        invariant
            k <= excluded@.len(),
            all_increasing(excluded@),
            strictly_increasing(running@),
            forall|x: u16|
                running@.contains(x) <==> (in_all(required@, x) && !exists|j: int|
                    0 <= j < k && (#[trigger] excluded@[j])@.contains(x)),
        decreases excluded@.len() - k,
    {
        assert(strictly_increasing(excluded@[k as int]@));
        let next = subtract_sorted(running.as_slice(), excluded[k].as_slice());
        assert forall|x: u16|
            next@.contains(x) <==> (in_all(required@, x) && !exists|j: int|
                0 <= j < k + 1 && (#[trigger] excluded@[j])@.contains(x)) by {
            if exists|j: int| 0 <= j < k + 1 && (#[trigger] excluded@[j])@.contains(x) {
                let j = choose|j: int| 0 <= j < k + 1 && (#[trigger] excluded@[j])@.contains(x);
                if j < k {
                    assert(!running@.contains(x));
                }
            }
        }
        running = next;
        k += 1;
    }
    running
}

} // verus!
