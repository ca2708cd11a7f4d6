//! Pairwise intersection of two sorted local-id arrays of one block, with a
//! vector-width skipping strategy and the plain two-pointer merge.
use vstd::prelude::*;
use crate::postings::strictly_increasing;

verus! {

/// Width of one comparison vector, in 16-bit lanes.
pub const LANES: usize = 8;

/// The elements of `a` that `b` holds, in the order of `a`.
pub open spec fn common(a: Seq<u16>, b: Seq<u16>) -> Seq<u16>
    decreases a.len(),
{
    if a.len() == 0 {
        Seq::<u16>::empty()
    } else {
        let rest = common(a.drop_last(), b);
        if b.contains(a.last()) {
            rest.push(a.last())
        } else {
            rest
        }
    }
}

/// One id found in both arrays, with its index in each.
#[derive(Debug, Clone, Copy, PartialEq, Eq, Structural)]
pub struct PairMatch {
    pub doc: u16,
    pub pos_a: usize,
    pub pos_b: usize,
}

/// The ids of a sequence of matches.
pub open spec fn match_docs(m: Seq<PairMatch>) -> Seq<u16> {
    m.map_values(|x: PairMatch| x.doc)
}

/// Each match names an index of `a` and an index of `b` that hold its id.
pub open spec fn matches_valid(m: Seq<PairMatch>, a: Seq<u16>, b: Seq<u16>) -> bool {
    forall|k: int|
        0 <= k < m.len() ==> {
            &&& m[k].pos_a < a.len()
            &&& m[k].pos_b < b.len()
            &&& a[m[k].pos_a as int] == m[k].doc
            &&& b[m[k].pos_b as int] == m[k].doc
        }
}

/// The merge state after `i_a` elements of `a` and `i_b` of `b` were passed:
/// the matches of the passed part of `a` are out, and everything passed in
/// `b` lies below what is left of `a`.
pub open spec fn merge_state(
    a: Seq<u16>,
    b: Seq<u16>,
    i_a: int,
    i_b: int,
    out: Seq<PairMatch>,
) -> bool {
    &&& 0 <= i_a <= a.len()
    &&& 0 <= i_b <= b.len()
    &&& match_docs(out) == common(a.take(i_a), b)
    &&& matches_valid(out, a, b)
    &&& forall|j: int, k: int| 0 <= j < i_b && i_a <= k < a.len() ==> b[j] < a[k]
}

proof fn lemma_common_step(a: Seq<u16>, b: Seq<u16>, i: int)
    requires
        0 <= i < a.len(),
    ensures
        common(a.take(i + 1), b) == if b.contains(a[i]) {
            common(a.take(i), b).push(a[i])
        } else {
            common(a.take(i), b)
        },
{
    assert(a.take(i + 1).drop_last() =~= a.take(i));
}

proof fn lemma_common_rest_absent(a: Seq<u16>, b: Seq<u16>, i: int)
    requires
        0 <= i <= a.len(),
        forall|k: int| i <= k < a.len() ==> !b.contains(a[k]),
    ensures
        common(a, b) == common(a.take(i), b),
    decreases a.len(),
{
    if a.len() == i {
        assert(a.take(i) =~= a);
    } else {
        let d = a.drop_last();
        assert forall|k: int| i <= k < d.len() implies !b.contains(d[k]) by {
            assert(d[k] == a[k]);
        }
        lemma_common_rest_absent(d, b, i);
        assert(d.take(i) =~= a.take(i));
    }
}

proof fn lemma_push_match(out: Seq<PairMatch>, m: PairMatch)
    ensures
        match_docs(out.push(m)) == match_docs(out).push(m.doc),
{
    assert(match_docs(out.push(m)) =~= match_docs(out).push(m.doc));
}

/// Finishes a merge with the plain two-pointer walk.
fn merge_tail(a: &[u16], b: &[u16], i_a: usize, i_b: usize, out: &mut Vec<PairMatch>)
    requires
        strictly_increasing(a@),
        strictly_increasing(b@),
        merge_state(a@, b@, i_a as int, i_b as int, old(out)@),
    ensures
        match_docs(final(out)@) == common(a@, b@),
        matches_valid(final(out)@, a@, b@),
{
    let mut i_a = i_a;
    let mut i_b = i_b;
    while i_a < a.len() && i_b < b.len()
        invariant
            strictly_increasing(a@),
            strictly_increasing(b@),
            merge_state(a@, b@, i_a as int, i_b as int, out@),
        decreases a@.len() - i_a + b@.len() - i_b,
    {
        let x = a[i_a];
        let y = b[i_b];
        proof {
            lemma_common_step(a@, b@, i_a as int);
        }
        if x < y {
            assert(!b@.contains(x)) by {
                assert forall|j: int| 0 <= j < b@.len() implies b@[j] != x by {
                    if j >= i_b {
                        assert(b@[i_b as int] <= b@[j]);
                    }
                }
            }
            i_a += 1;
        } else if x > y {
            i_b += 1;
        } else {
            let m = PairMatch { doc: x, pos_a: i_a, pos_b: i_b };
            proof {
                lemma_push_match(out@, m);
                assert(b@[i_b as int] == x);
            }
            out.push(m);
            i_a += 1;
            i_b += 1;
        }
    }
    proof {
        if i_a == a.len() {
            assert(a@.take(i_a as int) =~= a@);
        } else {
            assert forall|k: int| i_a <= k < a@.len() implies !b@.contains(a@[k]) by {
                assert forall|j: int| 0 <= j < b@.len() implies b@[j] != a@[k] by {}
            }
            lemma_common_rest_absent(a@, b@, i_a as int);
        }
    }
}

/// Classic two-pointer merge: every id present in both arrays, ascending,
/// each with its index in `a` and in `b`.
pub fn intersection_scalar16(a: &[u16], b: &[u16]) -> (r: Vec<PairMatch>)
    requires
        strictly_increasing(a@),
        strictly_increasing(b@),
    ensures
        match_docs(r@) == common(a@, b@),
        matches_valid(r@, a@, b@),
{
    let mut out: Vec<PairMatch> = Vec::new();
    proof {
        assert(match_docs(out@) =~= common(a@.take(0), b@));
    }
    merge_tail(a, b, 0, 0, &mut out);
    out
}

/// Index of the first lane of `b[start..start + LANES]` equal to `x`: the
/// lanewise equality compare of one vector against a broadcast value.
fn first_equal_lane(b: &[u16], start: usize, x: u16) -> (r: Option<usize>)
    requires
        start + LANES <= b@.len(),
    ensures
        match r {
            Some(k) => k < LANES && b@[start + k] == x,
            None => forall|j: int| start <= j < start + LANES ==> b@[j] != x,
        },
{
    let n = b.len();
    let mut k: usize = 0;
    while k < LANES
        invariant
            start + LANES <= b@.len(),
            n == b@.len(),
            k <= LANES,
            forall|j: int| start <= j < start + k ==> b@[j] != x,
        decreases LANES - k,
    {
        if b[start + k] == x {
            return Some(k);
        }
        k += 1;
    }
    None
}

/// Merge that compares one element of `a` against a whole vector of `b` at a
/// time: a vector lying entirely below `a[i_a]` is skipped in one step, and
/// the tail shorter than a vector is finished by the two-pointer merge.
pub fn intersection_vector16(a: &[u16], b: &[u16]) -> (r: Vec<PairMatch>)
    requires
        strictly_increasing(a@),
        strictly_increasing(b@),
    ensures
        match_docs(r@) == common(a@, b@),
        matches_valid(r@, a@, b@),
{
    let mut out: Vec<PairMatch> = Vec::new();
    let mut i_a: usize = 0;
    let mut i_b: usize = 0;
    proof {
        assert(match_docs(out@) =~= common(a@.take(0), b@));
    }
    while i_a < a.len() && LANES <= b.len() - i_b
        invariant
            strictly_increasing(a@),
            strictly_increasing(b@),
            merge_state(a@, b@, i_a as int, i_b as int, out@),
        decreases a@.len() - i_a + b@.len() - i_b,
    {
        let x = a[i_a];
        proof {
            lemma_common_step(a@, b@, i_a as int);
        }
        if x < b[i_b] {
            assert(!b@.contains(x)) by {
                assert forall|j: int| 0 <= j < b@.len() implies b@[j] != x by {
                    if j >= i_b {
                        assert(b@[i_b as int] <= b@[j]);
                    }
                }
            }
            i_a += 1;
        } else if x > b[i_b + LANES - 1] {
            assert forall|j: int, k: int|
                0 <= j < i_b + LANES && i_a <= k < a@.len() implies b@[j] < a@[k] by {
                if j < i_b + LANES - 1 {
                    assert(b@[j] < b@[i_b + LANES - 1]);
                }
                if k > i_a {
                    assert(a@[i_a as int] < a@[k]);
                }
            }
            i_b += LANES;
        } else {
            match first_equal_lane(b, i_b, x) {
                Some(k) => {
                    let m = PairMatch { doc: x, pos_a: i_a, pos_b: i_b + k };
                    proof {
                        lemma_push_match(out@, m);
                        assert(b@[i_b + k] == x);
                    }
                    out.push(m);
                },
                None => {
                    assert(!b@.contains(x)) by {
                        assert forall|j: int| 0 <= j < b@.len() implies b@[j] != x by {
                            if j >= i_b + LANES {
                                assert(b@[i_b + LANES - 1] < b@[j]);
                            }
                        }
                    }
                },
            }
            i_a += 1;
        }
    }
    merge_tail(a, b, i_a, i_b, &mut out);
    out
}

proof fn lemma_drop_last_contains(s: Seq<u16>)
    requires
        strictly_increasing(s),
        s.len() > 0,
    ensures
        forall|x: u16| s.drop_last().contains(x) <==> (s.contains(x) && x < s.last()),
{
    let d = s.drop_last();
    assert forall|x: u16| d.contains(x) <==> (s.contains(x) && x < s.last()) by {
        if d.contains(x) {
            let j = choose|j: int| 0 <= j < d.len() && d[j] == x;
            assert(s[j] == x);
            assert(s[j] < s[s.len() - 1]);
        }
        if s.contains(x) && x < s.last() {
            let j = choose|j: int| 0 <= j < s.len() && s[j] == x;
            assert(j != s.len() - 1);
            assert(d[j] == x);
        }
    }
}

/// `common(a, b)` holds exactly the ids that both `a` and `b` hold, strictly
/// ascending whenever `a` is: the merge output is the set intersection.
pub proof fn lemma_common_is_intersection(a: Seq<u16>, b: Seq<u16>)
    requires
        strictly_increasing(a),
    ensures
        strictly_increasing(common(a, b)),
        forall|x: u16| common(a, b).contains(x) <==> (a.contains(x) && b.contains(x)),
    decreases a.len(),
{
    if a.len() > 0 {
        let d = a.drop_last();
        lemma_drop_last_contains(a);
        lemma_common_is_intersection(d, b);
        let rest = common(d, b);
        assert(a.contains(a.last())) by {
            assert(a[a.len() - 1] == a.last());
        }
        if b.contains(a.last()) {
            let r = rest.push(a.last());
            assert forall|i: int| 0 <= i < rest.len() implies rest[i] < a.last() by {
                assert(rest.contains(rest[i]));
                assert(d.contains(rest[i]));
            }
            assert forall|x: u16| r.contains(x) <==> (rest.contains(x) || x == a.last()) by {
                if r.contains(x) {
                    let j = choose|j: int| 0 <= j < r.len() && r[j] == x;
                    if j < rest.len() {
                        assert(rest[j] == x);
                    }
                }
                if rest.contains(x) {
                    let j = choose|j: int| 0 <= j < rest.len() && rest[j] == x;
                    assert(r[j] == x);
                }
                if x == a.last() {
                    assert(r[rest.len() as int] == x);
                }
            }
        }
    }
}

/// Two strictly increasing sequences that hold the same ids are equal.
pub proof fn lemma_increasing_unique(s1: Seq<u16>, s2: Seq<u16>)
    requires
        strictly_increasing(s1),
        strictly_increasing(s2),
        forall|x: u16| s1.contains(x) <==> s2.contains(x),
    ensures
        s1 == s2,
    decreases s1.len(),
{
    if s1.len() == 0 {
        if s2.len() > 0 {
            assert(s2.contains(s2[0]));
        }
        assert(s1 =~= s2);
    } else {
        assert(s1.contains(s1[s1.len() - 1]));
        let j2 = choose|j: int| 0 <= j < s2.len() && s2[j] == s1.last();
        assert(s2.contains(s2[s2.len() - 1]));
        let j1 = choose|j: int| 0 <= j < s1.len() && s1[j] == s2.last();
        if j2 < s2.len() - 1 {
            assert(s2[j2] < s2[s2.len() - 1]);
        }
        if j1 < s1.len() - 1 {
            assert(s1[j1] < s1[s1.len() - 1]);
        }
        assert(s1.last() == s2.last());
        lemma_drop_last_contains(s1);
        lemma_drop_last_contains(s2);
        assert forall|x: u16| s1.drop_last().contains(x) <==> s2.drop_last().contains(x) by {
            assert(s1.contains(x) <==> s2.contains(x));
        }
        lemma_increasing_unique(s1.drop_last(), s2.drop_last());
        assert(s1 =~= s1.drop_last().push(s1.last()));
        assert(s2 =~= s2.drop_last().push(s2.last()));
    }
}

/// AND over sorted id lists does not depend on the order of evaluation:
/// pairwise intersection is commutative and associative.
pub proof fn lemma_and_order_invariant(a: Seq<u16>, b: Seq<u16>, c: Seq<u16>)
    requires
        strictly_increasing(a),
        strictly_increasing(b),
        strictly_increasing(c),
    ensures
        common(a, b) == common(b, a),
        common(common(a, b), c) == common(a, common(b, c)),
{
    lemma_common_is_intersection(a, b);
    lemma_common_is_intersection(b, a);
    assert forall|x: u16| common(a, b).contains(x) <==> common(b, a).contains(x) by {
        assert(common(a, b).contains(x) <==> (a.contains(x) && b.contains(x)));
        assert(common(b, a).contains(x) <==> (a.contains(x) && b.contains(x)));
    }
    lemma_increasing_unique(common(a, b), common(b, a));
    lemma_common_is_intersection(b, c);
    lemma_common_is_intersection(common(a, b), c);
    lemma_common_is_intersection(a, common(b, c));
    assert forall|x: u16|
        common(common(a, b), c).contains(x) <==> common(a, common(b, c)).contains(x) by {
        assert(common(a, b).contains(x) <==> (a.contains(x) && b.contains(x)));
        assert(common(b, c).contains(x) <==> (b.contains(x) && c.contains(x)));
        assert(common(common(a, b), c).contains(x) <==> (common(a, b).contains(x) && c.contains(x)));
        assert(common(a, common(b, c)).contains(x) <==> (a.contains(x) && common(b, c).contains(x)));
    }
    lemma_increasing_unique(common(common(a, b), c), common(a, common(b, c)));
}

/// Over duplicate-free arrays, matches are determined by their ids: any two
/// valid match lists with the same ids, such as those of the vector and the
/// scalar merge, are identical field for field.
pub proof fn lemma_matches_determined(
    m1: Seq<PairMatch>,
    m2: Seq<PairMatch>,
    a: Seq<u16>,
    b: Seq<u16>,
)
    requires
        strictly_increasing(a),
        strictly_increasing(b),
        matches_valid(m1, a, b),
        matches_valid(m2, a, b),
        match_docs(m1) == match_docs(m2),
    ensures
        m1 == m2,
{
    assert(m1.len() == match_docs(m1).len());
    assert(m2.len() == match_docs(m2).len());
    assert forall|k: int| 0 <= k < m1.len() implies m1[k] == m2[k] by {
        assert(match_docs(m1)[k] == m1[k].doc);
        assert(match_docs(m2)[k] == m2[k].doc);
        let (p, q) = (m1[k].pos_a as int, m2[k].pos_a as int);
        if p < q {
            assert(a[p] < a[q]);
        } else if q < p {
            assert(a[q] < a[p]);
        }
        let (p, q) = (m1[k].pos_b as int, m2[k].pos_b as int);
        if p < q {
            assert(b[p] < b[q]);
        } else if q < p {
            assert(b[q] < b[p]);
        }
    }
    assert(m1 =~= m2);
}

/// Which merge carries out a block intersection.
#[derive(Debug, Clone, Copy, PartialEq, Eq, Structural)]
pub enum IntersectStrategy {
    Vector,
    Scalar,
}

/// Intersects two sorted local-id arrays with the chosen strategy; both give
/// the same matches.
pub fn intersect_block(strategy: IntersectStrategy, a: &[u16], b: &[u16]) -> (r: Vec<PairMatch>)
    requires
        strictly_increasing(a@),
        strictly_increasing(b@),
    ensures
        match_docs(r@) == common(a@, b@),
        matches_valid(r@, a@, b@),
{
    match strategy {
        IntersectStrategy::Vector => intersection_vector16(a, b),
        IntersectStrategy::Scalar => intersection_scalar16(a, b),
    }
}

} // verus!
