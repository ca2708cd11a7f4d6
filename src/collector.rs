//! Result collection: counting and a bounded top-k of scored candidates,
//! ordered by score descending and then by document id ascending.
use vstd::prelude::*;

verus! {

/// A candidate document with its relevance score.
#[derive(Debug, Clone, Copy, PartialEq, Eq, Structural)]
pub struct ScoredDoc {
    pub doc_id: u64,
    pub score: u64,
}

/// `x` ranks before `y`: a higher score, or the same score and a lower id.
pub open spec fn ranks_before(x: ScoredDoc, y: ScoredDoc) -> bool {
    x.score > y.score || (x.score == y.score && x.doc_id < y.doc_id)
}

/// Each entry ranks before every later one.
pub open spec fn sorted_by_rank(s: Seq<ScoredDoc>) -> bool {
    forall|i: int, j: int| 0 <= i < j < s.len() ==> ranks_before(s[i], s[j])
}

/// The smaller of two naturals.
pub open spec fn min_nat(a: nat, b: nat) -> nat {
    if a < b {
        a
    } else {
        b
    }
}

/// `r` lists the `k` best-ranked members of `seen` (all of them if there
/// are fewer), best first.
pub open spec fn is_top_k(seen: Set<ScoredDoc>, k: nat, r: Seq<ScoredDoc>) -> bool {
    &&& sorted_by_rank(r)
    &&& forall|i: int| 0 <= i < r.len() ==> seen.contains(#[trigger] r[i])
    &&& r.len() == min_nat(k, seen.len())
    &&& forall|s: ScoredDoc, i: int|
        #![trigger seen.contains(s), r[i]]
        seen.contains(s) && !r.contains(s) && 0 <= i < r.len() ==> ranks_before(r[i], s)
}

/// No two members share a document id.
pub open spec fn distinct_ids(s: Set<ScoredDoc>) -> bool {
    forall|a: ScoredDoc, b: ScoredDoc|
        #![trigger s.contains(a), s.contains(b)]
        s.contains(a) && s.contains(b) && a.doc_id == b.doc_id ==> a == b
}

/// Candidates with distinct ids below `n` number at most `n`.
proof fn lemma_ids_bound(s: Set<ScoredDoc>, n: nat)
    requires
        s.finite(),
        distinct_ids(s),
        forall|x: ScoredDoc| #[trigger] s.contains(x) ==> x.doc_id < n,
    ensures
        s.len() <= n,
    decreases n,
{
    if n == 0 {
        if s.len() > 0 {
            let x = s.choose();
            assert(s.contains(x));
        }
    } else {
        let low = s.filter(|x: ScoredDoc| x.doc_id < n - 1);
        vstd::set_lib::lemma_len_subset(low, s);
        lemma_ids_bound(low, (n - 1) as nat);
        if exists|x: ScoredDoc| s.contains(x) && x.doc_id == n - 1 {
            let x = choose|x: ScoredDoc| s.contains(x) && x.doc_id == n - 1;
            assert(s =~= low.insert(x));
        } else {
            assert(s =~= low);
        }
    }
}

/// What a query collects.
#[derive(Debug, Clone, Copy, PartialEq, Eq, Structural)]
pub enum ResultType {
    /// Count matches only; no document is kept.
    Count,
    /// Keep the top-k; the total may stop early and is then approximate.
    Topk,
    /// Keep the top-k and count every match exactly.
    TopkCount,
}

/// Whether `result_count_total` counts every match or stopped early.
#[derive(Debug, Clone, Copy, PartialEq, Eq, Structural)]
pub enum CountKind {
    Exact,
    Approximate,
}

/// The results of one query: the kept documents, best first, and the count
/// of accepted candidates.
pub struct SearchResult {
    pub results: Vec<ScoredDoc>,
    pub top_k: usize,
    pub result_type: ResultType,
    pub result_count_total: u64,
    pub count_kind: CountKind,
    /// One past the largest id offered so far.
    pub next_doc: u64,
    /// The candidates offered so far.
    pub seen: Ghost<Set<ScoredDoc>>,
}

/// Exec form of `ranks_before`.
pub fn rank_before(x: &ScoredDoc, y: &ScoredDoc) -> (r: bool)
    ensures
        r == ranks_before(*x, *y),
{
    x.score > y.score || (x.score == y.score && x.doc_id < y.doc_id)
}

proof fn lemma_insert_contains(before: Seq<ScoredDoc>, pos: int, x: ScoredDoc)
    requires
        0 <= pos <= before.len(),
    ensures
        forall|y: ScoredDoc| before.insert(pos, x).contains(y) <==> (before.contains(y) || y == x),
{
    let v = before.insert(pos, x);
    assert forall|y: ScoredDoc| v.contains(y) <==> (before.contains(y) || y == x) by {
        if v.contains(y) {
            let j = choose|j: int| 0 <= j < v.len() && v[j] == y;
            if j < pos {
                assert(before[j] == y);
            } else if j > pos {
                assert(before[j - 1] == y);
            }
        }
        if before.contains(y) {
            let j = choose|j: int| 0 <= j < before.len() && before[j] == y;
            if j < pos {
                assert(v[j] == y);
            } else {
                assert(v[j + 1] == y);
            }
        }
        if y == x {
            assert(v[pos] == y);
        }
    }
}

/// Inserts `x` at its place in a rank-sorted vector.
fn insert_ranked(v: &mut Vec<ScoredDoc>, x: ScoredDoc)
    requires
        sorted_by_rank(old(v)@),
        forall|i: int| 0 <= i < old(v)@.len() ==> (#[trigger] old(v)@[i]).doc_id != x.doc_id,
    ensures
        sorted_by_rank(final(v)@),
        final(v)@.len() == old(v)@.len() + 1,
        forall|y: ScoredDoc| final(v)@.contains(y) <==> (old(v)@.contains(y) || y == x),
{
    let mut pos: usize = 0;
    while pos < v.len() && !rank_before(&x, &v[pos])
        invariant
            pos <= v@.len(),
            v@ == old(v)@,
            forall|i: int| 0 <= i < pos ==> !ranks_before(x, #[trigger] v@[i]),
        decreases v@.len() - pos,
    {
        pos += 1;
    }
    let ghost before = v@;
    v.insert(pos, x);
    proof {
        assert forall|i: int| 0 <= i < pos implies ranks_before(#[trigger] before[i], x) by {
            assert(!ranks_before(x, before[i]));
            assert(before[i].doc_id != x.doc_id);
        }
        assert forall|i: int| pos <= i < before.len() implies ranks_before(x, #[trigger] before[i]) by {
            if i > pos {
                assert(ranks_before(before[pos as int], before[i]));
            }
        }
        assert forall|i: int, j: int| 0 <= i < j < v@.len() implies ranks_before(v@[i], v@[j]) by {
            if j < pos {
                assert(v@[i] == before[i] && v@[j] == before[j]);
            } else if j == pos {
                assert(v@[i] == before[i]);
            } else if i > pos {
                assert(v@[i] == before[i - 1] && v@[j] == before[j - 1]);
            } else if i == pos {
                assert(v@[j] == before[j - 1]);
            } else {
                assert(v@[i] == before[i] && v@[j] == before[j - 1]);
                assert(ranks_before(before[i], x));
            }
        }
        lemma_insert_contains(before, pos as int, x);
        assert forall|y: ScoredDoc| v@.contains(y) <==> (old(v)@.contains(y) || y == x) by {
            assert(before.insert(pos as int, x).contains(y) <==> (before.contains(y) || y == x));
        }
    }
}

proof fn lemma_ranked_drop_last(s: Seq<ScoredDoc>)
    requires
        sorted_by_rank(s),
        s.len() > 0,
    ensures
        forall|x: ScoredDoc| s.drop_last().contains(x) <==> (s.contains(x) && x != s.last()),
{
    let d = s.drop_last();
    assert forall|x: ScoredDoc| d.contains(x) <==> (s.contains(x) && x != s.last()) by {
        if d.contains(x) {
            let j = choose|j: int| 0 <= j < d.len() && d[j] == x;
            assert(s[j] == x);
            assert(ranks_before(s[j], s[s.len() - 1]));
        }
        if s.contains(x) && x != s.last() {
            let j = choose|j: int| 0 <= j < s.len() && s[j] == x;
            assert(d[j] == x);
        }
    }
}

/// Two rank-sorted sequences with the same members are equal.
pub proof fn lemma_ranked_unique(s1: Seq<ScoredDoc>, s2: Seq<ScoredDoc>)
    requires
        sorted_by_rank(s1),
        sorted_by_rank(s2),
        forall|x: ScoredDoc| s1.contains(x) <==> s2.contains(x),
    ensures
        s1 == s2,
    decreases s1.len(),
{
    if s1.len() == 0 {
        if s2.len() > 0 {
            assert(s2.contains(s2[0]));
        }
        assert(s1 =~= s2);
    } else {
        assert(s1.contains(s1[s1.len() - 1]));
        let j2 = choose|j: int| 0 <= j < s2.len() && s2[j] == s1.last();
        assert(s2.contains(s2[s2.len() - 1]));
        let j1 = choose|j: int| 0 <= j < s1.len() && s1[j] == s2.last();
        if j2 < s2.len() - 1 {
            assert(ranks_before(s2[j2], s2[s2.len() - 1]));
            if j1 < s1.len() - 1 {
                assert(ranks_before(s1[j1], s1[s1.len() - 1]));
            }
        }
        if j1 < s1.len() - 1 {
            assert(ranks_before(s1[j1], s1[s1.len() - 1]));
        }
        assert(s1.last() == s2.last());
        lemma_ranked_drop_last(s1);
        lemma_ranked_drop_last(s2);
        assert forall|x: ScoredDoc| s1.drop_last().contains(x) <==> s2.drop_last().contains(x) by {
            assert(s1.contains(x) <==> s2.contains(x));
        }
        lemma_ranked_unique(s1.drop_last(), s2.drop_last());
        assert(s1 =~= s1.drop_last().push(s1.last()));
        assert(s2 =~= s2.drop_last().push(s2.last()));
    }
}

proof fn lemma_ranked_set_len(s: Seq<ScoredDoc>)
    requires
        sorted_by_rank(s),
    ensures
        s.to_set().len() == s.len(),
        s.to_set().finite(),
{
    assert forall|i: int, j: int| 0 <= i < s.len() && 0 <= j < s.len() && i != j implies s[i] != s[j] by {
        if i < j {
            assert(ranks_before(s[i], s[j]));
        } else {
            assert(ranks_before(s[j], s[i]));
        }
    }
    assert(s.no_duplicates());
    s.unique_seq_to_set();
}

proof fn lemma_top_k_members(seen: Set<ScoredDoc>, k: nat, r1: Seq<ScoredDoc>, r2: Seq<ScoredDoc>)
    requires
        seen.finite(),
        is_top_k(seen, k, r1),
        is_top_k(seen, k, r2),
    ensures
        forall|x: ScoredDoc| r1.contains(x) ==> r2.contains(x),
{
    lemma_ranked_set_len(r1);
    lemma_ranked_set_len(r2);
    assert forall|x: ScoredDoc| r1.contains(x) implies r2.contains(x) by {
        if !r2.contains(x) {
            let i1 = choose|i: int| 0 <= i < r1.len() && r1[i] == x;
            assert(seen.contains(r1[i1]));
            if r2.to_set().subset_of(r1.to_set()) {
                vstd::set_lib::lemma_subset_equality(r2.to_set(), r1.to_set());
                assert(r1.to_set().contains(x));
            } else {
                let y = choose|y: ScoredDoc| r2.to_set().contains(y) && !r1.to_set().contains(y);
                let i2 = choose|i: int| 0 <= i < r2.len() && r2[i] == y;
                assert(seen.contains(r2[i2]));
                assert(ranks_before(r1[i1], y));
                assert(ranks_before(r2[i2], x));
            }
        }
    }
}

/// The top-k of a set of candidates is unique: whatever order the
/// candidates arrive in, a collector that ends with the same candidates
/// returns the same documents in the same order.
pub proof fn lemma_top_k_unique(seen: Set<ScoredDoc>, k: nat, r1: Seq<ScoredDoc>, r2: Seq<ScoredDoc>)
    requires
        seen.finite(),
        is_top_k(seen, k, r1),
        is_top_k(seen, k, r2),
    ensures
        r1 == r2,
{
    lemma_top_k_members(seen, k, r1, r2);
    lemma_top_k_members(seen, k, r2, r1);
    lemma_ranked_unique(r1, r2);
}

impl SearchResult {
    /// The collector's invariant: counts match the offered candidates, and
    /// the kept documents are the top-k of them (none in count-only mode).
    pub open spec fn wf(&self) -> bool {
        &&& self.seen@.finite()
        &&& forall|s: ScoredDoc| #[trigger] self.seen@.contains(s) ==> s.doc_id < self.next_doc
        &&& distinct_ids(self.seen@)
        &&& self.result_count_total == self.seen@.len()
        &&& self.result_count_total <= self.next_doc
        &&& if self.result_type == ResultType::Count {
            self.results@.len() == 0
        } else {
            &&& is_top_k(self.seen@, self.top_k as nat, self.results@)
            &&& self.results@.len() < self.top_k ==> forall|s: ScoredDoc| #[trigger]
                self.seen@.contains(s) ==> self.results@.contains(s)
        }
    }

    /// An empty collector keeping at most `top_k` documents.
    pub fn new(top_k: usize, result_type: ResultType) -> (r: SearchResult)
        ensures
            r.wf(),
            r.top_k == top_k,
            r.result_type == result_type,
            r.seen@ == Set::<ScoredDoc>::empty(),
            r.results@.len() == 0,
            r.result_count_total == 0,
            r.count_kind == CountKind::Exact,
            r.next_doc == 0,
    {
        SearchResult {
            results: Vec::new(),
            top_k,
            result_type,
            result_count_total: 0,
            count_kind: CountKind::Exact,
            next_doc: 0,
            seen: Ghost(Set::empty()),
        }
    }

    /// Number of documents kept.
    pub fn result_count(&self) -> (r: usize)
        ensures
            r == self.results@.len(),
    {
        self.results.len()
    }

    /// The kept documents from rank `offset` on: the page a query with that
    /// offset returns.
    pub fn result_page(&self, offset: usize) -> (r: Vec<ScoredDoc>)
        ensures
            r@ == if offset < self.results@.len() {
                self.results@.subrange(offset as int, self.results@.len() as int)
            } else {
                Seq::<ScoredDoc>::empty()
            },
    {
        let mut r: Vec<ScoredDoc> = Vec::new();
        let mut i: usize = offset;
        while i < self.results.len()
            invariant
                offset <= i,
                offset < self.results@.len() ==> i <= self.results@.len(),
                r@ == if offset < self.results@.len() {
                    self.results@.subrange(offset as int, i as int)
                } else {
                    Seq::<ScoredDoc>::empty()
                },
            decreases self.results@.len() - i,
        {
            r.push(self.results[i]);
            i += 1;
            assert(r@ =~= self.results@.subrange(offset as int, i as int));
        }
        proof {
            if offset >= self.results@.len() {
                assert(r@ =~= Seq::<ScoredDoc>::empty());
            }
        }
        r
    }

    /// Offers a candidate that passed every filter, under an id not offered
    /// before; ids may come in any order. It is counted; outside count-only
    /// mode it is kept when it ranks among the `top_k` best so far, evicting
    /// the lowest-ranked entry when the collector is full.
    pub fn add(&mut self, doc_id: u64, score: u64)
        requires
            old(self).wf(),
            forall|s: ScoredDoc| #[trigger] old(self).seen@.contains(s) ==> s.doc_id != doc_id,
            doc_id < u64::MAX,
        ensures
            final(self).wf(),
            final(self).seen@ == old(self).seen@.insert(ScoredDoc { doc_id, score }),
            final(self).result_count_total == old(self).result_count_total + 1,
            final(self).next_doc == if old(self).next_doc <= doc_id {
                (doc_id + 1) as u64
            } else {
                old(self).next_doc
            },
            final(self).top_k == old(self).top_k,
            final(self).result_type == old(self).result_type,
            final(self).count_kind == old(self).count_kind,
            final(self).result_type == ResultType::Count ==> final(self).results@.len() == 0,
    {
        let x = ScoredDoc { doc_id, score };
        let ghost old_seen = self.seen@;
        let ghost old_results = self.results@;
        let ghost seen = old_seen.insert(x);
        let ghost k = self.top_k as nat;
        let ghost next = if self.next_doc <= doc_id {
            (doc_id + 1) as u64
        } else {
            self.next_doc
        };
        proof {
            assert(!old_seen.contains(x));
            assert(seen.len() == old_seen.len() + 1);
            assert forall|a: ScoredDoc, b: ScoredDoc|
                seen.contains(a) && seen.contains(b) && a.doc_id == b.doc_id implies a == b by {
                if a != x && b != x {
                    assert(old_seen.contains(a) && old_seen.contains(b));
                }
            }
            lemma_ids_bound(seen, next as nat);
            assert forall|i: int| 0 <= i < old_results.len() implies (#[trigger] old_results[i]).doc_id
                != x.doc_id by {
                if self.result_type != ResultType::Count {
                    assert(old_seen.contains(old_results[i]));
                }
            }
        }
        self.result_count_total = self.result_count_total + 1;
        if self.next_doc <= doc_id {
            self.next_doc = doc_id + 1;
        }
        self.seen = Ghost(seen);
        if self.result_type != ResultType::Count && self.top_k > 0 {
            if self.results.len() < self.top_k {
                insert_ranked(&mut self.results, x);
                proof {
                    assert(old_results.len() == old_seen.len());
                    assert forall|y: ScoredDoc| #[trigger] seen.contains(y) implies self.results@.contains(y) by {
                        if y != x {
                            assert(old_seen.contains(y));
                        }
                    }
                    assert forall|i: int| 0 <= i < self.results@.len() implies seen.contains(
                        #[trigger] self.results@[i],
                    ) by {
                        assert(self.results@.contains(self.results@[i]));
                        if self.results@[i] != x {
                            assert(old_results.contains(self.results@[i]));
                        }
                    }
                }
            } else {
                let last = self.results.len() - 1;
                if rank_before(&x, &self.results[last]) {
                    self.results.pop();
                    let ghost kept = old_results.subrange(0, last as int);
                    let ghost wv = old_results[last as int];
                    proof {
                        assert(self.results@ =~= kept);
                        assert forall|i: int, j: int| 0 <= i < j < kept.len() implies ranks_before(
                            kept[i],
                            kept[j],
                        ) by {
                            assert(kept[i] == old_results[i] && kept[j] == old_results[j]);
                        }
                        assert forall|i: int| 0 <= i < kept.len() implies (#[trigger] kept[i]).doc_id
                            != x.doc_id by {
                            assert(kept[i] == old_results[i]);
                        }
                        assert forall|y: ScoredDoc| kept.contains(y) <==> (old_results.contains(y) && y != wv) by {
                            if kept.contains(y) {
                                let j = choose|j: int| 0 <= j < kept.len() && kept[j] == y;
                                assert(old_results[j] == y);
                                assert(ranks_before(old_results[j], wv));
                            }
                            if old_results.contains(y) && y != wv {
                                let j = choose|j: int| 0 <= j < old_results.len() && old_results[j] == y;
                                assert(kept[j] == y);
                            }
                        }
                    }
                    insert_ranked(&mut self.results, x);
                    proof {
                        let r = self.results@;
                        assert(old_results.contains(wv)) by {
                            assert(old_results[last as int] == wv);
                        }
                        assert(old_seen.contains(wv));
                        assert forall|i: int| 0 <= i < r.len() implies seen.contains(#[trigger] r[i]) by {
                            assert(r.contains(r[i]));
                            if r[i] != x {
                                assert(old_results.contains(r[i]));
                                let j = choose|j: int| 0 <= j < old_results.len() && old_results[j] == r[i];
                                assert(old_seen.contains(old_results[j]));
                            }
                        }
                        assert forall|y: ScoredDoc, i: int|
                            #![trigger seen.contains(y), r[i]]
                            seen.contains(y) && !r.contains(y) && 0 <= i < r.len() implies ranks_before(r[i], y) by {
                            assert(r.contains(r[i]));
                            assert(y != x);
                            assert(old_seen.contains(y));
                            if r[i] == x {
                                if y != wv {
                                    assert(!old_results.contains(y));
                                    assert(ranks_before(old_results[last as int], y));
                                }
                            } else {
                                assert(old_results.contains(r[i]));
                                let j = choose|j: int| 0 <= j < old_results.len() && old_results[j] == r[i];
                                if y == wv {
                                    assert(j != last);
                                    assert(ranks_before(old_results[j], old_results[last as int]));
                                } else {
                                    assert(!old_results.contains(y));
                                    assert(ranks_before(old_results[j], y));
                                }
                            }
                        }
                    }
                } else {
                    proof {
                        let r = self.results@;
                        let wv = old_results[last as int];
                        assert(old_seen.contains(wv));
                        assert(ranks_before(wv, x));
                        assert(!r.contains(x)) by {
                            if r.contains(x) {
                                let j = choose|j: int| 0 <= j < r.len() && r[j] == x;
                                assert(r[j].doc_id != x.doc_id);
                            }
                        }
                        assert forall|i: int| 0 <= i < r.len() implies seen.contains(#[trigger] r[i]) by {
                            assert(old_seen.contains(r[i]));
                        }
                        assert forall|y: ScoredDoc, i: int|
                            #![trigger seen.contains(y), r[i]]
                            seen.contains(y) && !r.contains(y) && 0 <= i < r.len() implies ranks_before(r[i], y) by {
                            if y == x {
                                if i < last {
                                    assert(ranks_before(r[i], wv));
                                }
                            } else {
                                assert(old_seen.contains(y));
                            }
                        }
                    }
                }
            }
        }
    }
}

} // verus!
