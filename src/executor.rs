//! The query walk: blocks in ascending id order, each intersected, filtered,
//! scored and handed to the collector, with early termination where the
//! result type allows an approximate total.
use vstd::prelude::*;
use ahash::AHashSet;
use crate::postings::{
    decode_ids,
    decoded,
    global_doc_id,
    global_id,
    lemma_take_contains,
    strictly_increasing,
    DecodeError,
    MAX_BLOCK_ID,
};
use crate::intersect::IntersectStrategy;
use crate::multi::{all_increasing, in_all, in_any, intersect_query};
use crate::phrase::{is_phrase, phrase_matches, views};
use crate::filter::{
    facet_filter_passes,
    field_filter_passes,
    field_set,
    fields_allowed,
    passes_all,
    FilterSparse,
};
use crate::collector::{CountKind, ResultType, ScoredDoc, SearchResult};

verus! {

/// One term's postings inside one block, as handed over by the storage
/// layer: `doc_count` little-endian 16-bit local ids, and for each posting
/// its quantised score contribution, the field it occurs in and its
/// positions inside the document (these only for phrase queries).
pub struct TermBlock {
    pub ids: Vec<u8>,
    pub doc_count: usize,
    pub impacts: Vec<u32>,
    pub fields: Vec<u16>,
    pub positions: Vec<Vec<u32>>,
}

/// The postings of one block: the required terms in query order, and the
/// excluded terms (only their ids are read).
pub struct Block {
    pub block_id: u64,
    pub terms: Vec<TermBlock>,
    pub excluded: Vec<TermBlock>,
}

/// What the query asks for.
pub struct QuerySpec {
    pub term_count: usize,
    pub phrase: bool,
    /// Number of best results skipped before the returned page.
    pub offset: usize,
    /// Number of results in the returned page.
    pub length: usize,
    pub result_type: ResultType,
    pub strategy: IntersectStrategy,
    pub field_filter: AHashSet<u16>,
    pub facet_filter: Vec<FilterSparse>,
}

/// Why a query failed.
#[derive(Debug, Clone, Copy, PartialEq, Eq, Structural)]
pub enum QueryError {
    /// Blocks and query disagree: term counts, per-posting data or block order.
    Configuration,
    /// A posting buffer is malformed.
    Decode(DecodeError),
}

/// The local ids of a term block.
pub open spec fn local_ids(t: TermBlock) -> Seq<u16> {
    decoded(t.ids@, t.doc_count as nat)
}

/// The term block's id buffer is long enough and strictly increasing.
pub open spec fn term_decodes(t: TermBlock) -> bool {
    2 * t.doc_count <= t.ids@.len() && strictly_increasing(local_ids(t))
}

/// Per-posting data is present for every posting.
pub open spec fn term_shaped(t: TermBlock, phrase: bool) -> bool {
    &&& t.impacts@.len() == t.doc_count
    &&& t.fields@.len() == t.doc_count
    &&& phrase ==> t.positions@.len() == t.doc_count
}

/// The block has one term block per query term, each with its per-posting
/// data, and its id leaves room for the global id encoding.
pub open spec fn block_shaped(b: Block, q: QuerySpec) -> bool {
    &&& b.terms@.len() == q.term_count
    &&& b.block_id <= MAX_BLOCK_ID
    &&& forall|t: int| 0 <= t < b.terms@.len() ==> term_shaped(#[trigger] b.terms@[t], q.phrase)
}

/// The blocks fit the query and come in strictly increasing id order.
pub open spec fn config_ok(blocks: Seq<Block>, q: QuerySpec) -> bool {
    &&& q.term_count >= 1
    &&& q.offset + q.length <= usize::MAX
    &&& forall|i: int| 0 <= i < blocks.len() ==> block_shaped(#[trigger] blocks[i], q)
    &&& forall|i: int, j: int|
        0 <= i < j < blocks.len() ==> (#[trigger] blocks[i]).block_id < (#[trigger] blocks[j]).block_id
}

/// Every posting buffer of the block decodes.
pub open spec fn block_decodes(b: Block) -> bool {
    &&& forall|t: int| 0 <= t < b.terms@.len() ==> term_decodes(#[trigger] b.terms@[t])
    &&& forall|e: int| 0 <= e < b.excluded@.len() ==> term_decodes(#[trigger] b.excluded@[e])
}

/// Every posting buffer of every block decodes.
pub open spec fn all_decode(blocks: Seq<Block>) -> bool {
    forall|i: int| 0 <= i < blocks.len() ==> block_decodes(#[trigger] blocks[i])
}

/// Index of local id `l` in the term block.
pub open spec fn index_in(t: TermBlock, l: u16) -> int {
    choose|j: int| 0 <= j < t.doc_count && local_ids(t)[j] == l
}

/// Every required term holds `l` and no excluded term does.
pub open spec fn id_matches(b: Block, l: u16) -> bool {
    &&& forall|t: int| 0 <= t < b.terms@.len() ==> local_ids(#[trigger] b.terms@[t]).contains(l)
    &&& !exists|e: int| 0 <= e < b.excluded@.len() && local_ids(#[trigger] b.excluded@[e]).contains(l)
}

/// The fields in which the required terms were found for `l`, in query order.
pub open spec fn fields_at(b: Block, l: u16) -> Seq<u16> {
    Seq::new(b.terms@.len(), |t: int| b.terms@[t].fields@[index_in(b.terms@[t], l)])
}

/// The positions of the required terms in document `l`, in query order.
pub open spec fn positions_at(b: Block, l: u16) -> Seq<Seq<u32>> {
    Seq::new(b.terms@.len(), |t: int| b.terms@[t].positions@[index_in(b.terms@[t], l)]@)
}

/// Saturating sum of the first `n` terms' contributions for `l`.
pub open spec fn score_upto(b: Block, l: u16, n: int) -> u64
    decreases n,
{
    if n <= 0 {
        0
    } else {
        let prev = score_upto(b, l, n - 1);
        let c = b.terms@[n - 1].impacts@[index_in(b.terms@[n - 1], l)];
        if prev as int + c as int > u64::MAX as int {
            u64::MAX
        } else {
            (prev + c) as u64
        }
    }
}

/// Score of document `l`: the saturating sum of its terms' contributions.
pub open spec fn score_of(b: Block, l: u16) -> u64 {
    score_upto(b, l, b.terms@.len() as int)
}

/// The scored global document for `l`.
pub open spec fn hit(b: Block, l: u16) -> ScoredDoc {
    ScoredDoc { doc_id: global_id(b.block_id as int, l as int) as u64, score: score_of(b, l) }
}

/// `l` is a result of the block: it matches the boolean query, passes the
/// facet and field filters and, for a phrase query, the phrase check.
pub open spec fn accepted(b: Block, q: QuerySpec, l: u16) -> bool {
    &&& id_matches(b, l)
    &&& passes_all(q.facet_filter@, global_id(b.block_id as int, l as int) as u64)
    &&& fields_allowed(field_set(q.field_filter), fields_at(b, l))
    &&& q.phrase ==> is_phrase(positions_at(b, l))
}

/// The hits among local ids listed in `c`.
pub open spec fn hits_among(b: Block, q: QuerySpec, c: Seq<u16>) -> Set<ScoredDoc> {
    Set::new(|s: ScoredDoc| exists|l: u16| c.contains(l) && accepted(b, q, l) && s == hit(b, l))
}

/// The hits of one block.
pub open spec fn block_hits(b: Block, q: QuerySpec) -> Set<ScoredDoc> {
    Set::new(|s: ScoredDoc| exists|l: u16| accepted(b, q, l) && s == hit(b, l))
}

/// The hits of the first `n` blocks.
pub open spec fn hits_upto(blocks: Seq<Block>, q: QuerySpec, n: int) -> Set<ScoredDoc>
    decreases n,
{
    if n <= 0 {
        Set::<ScoredDoc>::empty()
    } else {
        hits_upto(blocks, q, n - 1).union(block_hits(blocks[n - 1], q))
    }
}

fn term_shape_ok(t: &TermBlock, phrase: bool) -> (r: bool)
    ensures
        r == term_shaped(*t, phrase),
{
    t.impacts.len() == t.doc_count && t.fields.len() == t.doc_count && (!phrase
        || t.positions.len() == t.doc_count)
}

fn block_shape_ok(b: &Block, q: &QuerySpec) -> (r: bool)
    ensures
        r == block_shaped(*b, *q),
{
    if b.terms.len() != q.term_count || b.block_id > MAX_BLOCK_ID {
        return false;
    }
    let mut t: usize = 0;
    while t < b.terms.len()
        invariant
            t <= b.terms@.len(),
            forall|u: int| 0 <= u < t ==> term_shaped(#[trigger] b.terms@[u], q.phrase),
        decreases b.terms@.len() - t,
    {
        if !term_shape_ok(&b.terms[t], q.phrase) {
            return false;
        }
        t += 1;
    }
    true
}

/// Whether the blocks fit the query and come in strictly increasing order.
pub fn check_config(blocks: &Vec<Block>, q: &QuerySpec) -> (r: bool)
    ensures
        r == config_ok(blocks@, *q),
{
    if q.term_count == 0 || q.offset > usize::MAX - q.length {
        return false;
    }
    let mut i: usize = 0;
    while i < blocks.len()
        invariant
            i <= blocks@.len(),
            q.term_count >= 1,
            q.offset + q.length <= usize::MAX,
            forall|k: int| 0 <= k < i ==> block_shaped(#[trigger] blocks@[k], *q),
            forall|k: int, j: int|
                0 <= k < j < i ==> (#[trigger] blocks@[k]).block_id < (#[trigger] blocks@[j]).block_id,
        decreases blocks@.len() - i,
    {
        if !block_shape_ok(&blocks[i], q) {
            return false;
        }
        if i > 0 && blocks[i - 1].block_id >= blocks[i].block_id {
            return false;
        }
        proof {
            assert forall|k: int, j: int|
                0 <= k < j < i + 1 implies (#[trigger] blocks@[k]).block_id < (
                #[trigger] blocks@[j]).block_id by {
                if j == i && k < i - 1 {
                    assert(blocks@[k].block_id < blocks@[i - 1].block_id);
                }
            }
        }
        i += 1;
    }
    true
}

/// The decoded local ids of one block.
pub struct DecodedBlock {
    pub required: Vec<Vec<u16>>,
    pub excluded: Vec<Vec<u16>>,
}

/// `lists` are the decoded ids of `terms`, in order.
pub open spec fn decodes_to(terms: Seq<TermBlock>, lists: Seq<Vec<u16>>) -> bool {
    &&& lists.len() == terms.len()
    &&& forall|t: int| 0 <= t < terms.len() ==> (#[trigger] lists[t])@ == local_ids(terms[t])
    &&& forall|t: int| 0 <= t < terms.len() ==> term_decodes(#[trigger] terms[t])
}

fn decode_terms(terms: &Vec<TermBlock>) -> (r: Result<Vec<Vec<u16>>, DecodeError>)
    ensures
        match r {
            Ok(lists) => decodes_to(terms@, lists@),
            Err(_) => exists|t: int| 0 <= t < terms@.len() && !term_decodes(#[trigger] terms@[t]),
        },
{
    let mut lists: Vec<Vec<u16>> = Vec::new();
    let mut t: usize = 0;
    while t < terms.len()
        invariant
            t <= terms@.len(),
            lists@.len() == t,
            forall|u: int| 0 <= u < t ==> (#[trigger] lists@[u])@ == local_ids(terms@[u]),
            forall|u: int| 0 <= u < t ==> term_decodes(#[trigger] terms@[u]),
        decreases terms@.len() - t,
    {
        let term = &terms[t];
        match decode_ids(term.ids.as_slice(), term.doc_count) {
            Ok(ids) => {
                lists.push(ids);
            },
            Err(e) => {
                assert(!term_decodes(terms@[t as int]));
                return Err(e);
            },
        }
        t += 1;
    }
    Ok(lists)
}

/// Decodes every block's posting buffers.
pub fn decode_blocks(blocks: &Vec<Block>) -> (r: Result<Vec<DecodedBlock>, DecodeError>)
    ensures
        match r {
            Ok(ds) => ds@.len() == blocks@.len() && forall|i: int|
                0 <= i < blocks@.len() ==> {
                    &&& decodes_to(blocks@[i].terms@, (#[trigger] ds@[i]).required@)
                    &&& decodes_to(blocks@[i].excluded@, ds@[i].excluded@)
                },
            Err(_) => !all_decode(blocks@),
        },
{
    let mut ds: Vec<DecodedBlock> = Vec::new();
    let mut i: usize = 0;
    while i < blocks.len()
        invariant
            i <= blocks@.len(),
            ds@.len() == i,
            forall|k: int|
                0 <= k < i ==> {
                    &&& decodes_to(blocks@[k].terms@, (#[trigger] ds@[k]).required@)
                    &&& decodes_to(blocks@[k].excluded@, ds@[k].excluded@)
                },
        decreases blocks@.len() - i,
    {
        let required = match decode_terms(&blocks[i].terms) {
            Ok(v) => v,
            Err(e) => {
                assert(!block_decodes(blocks@[i as int]));
                return Err(e);
            },
        };
        let excluded = match decode_terms(&blocks[i].excluded) {
            Ok(v) => v,
            Err(e) => {
                assert(!block_decodes(blocks@[i as int]));
                return Err(e);
            },
        };
        ds.push(DecodedBlock { required, excluded });
        i += 1;
    }
    Ok(ds)
}

fn position_of(ids: &Vec<u16>, l: u16) -> (r: usize)
    requires
        ids@.contains(l),
    ensures
        r < ids@.len(),
        ids@[r as int] == l,
{
    let mut j: usize = 0;
    while j < ids.len()
        invariant
            j <= ids@.len(),
            ids@.contains(l),
            forall|k: int| 0 <= k < j ==> ids@[k] != l,
        decreases ids@.len() - j,
    {
        if ids[j] == l {
            return j;
        }
        j += 1;
    }
    proof {
        let k = choose|k: int| 0 <= k < ids@.len() && ids@[k] == l;
        assert(ids@[k] != l);
    }
    0
}

proof fn lemma_index_in(t: TermBlock, l: u16, j: int)
    requires
        term_decodes(t),
        0 <= j < t.doc_count,
        local_ids(t)[j] == l,
    ensures
        index_in(t, l) == j,
{
    let i = index_in(t, l);
    assert(0 <= i < t.doc_count && local_ids(t)[i] == l);
    if i < j {
        assert(local_ids(t)[i] < local_ids(t)[j]);
    } else if j < i {
        assert(local_ids(t)[j] < local_ids(t)[i]);
    }
}

fn copy_positions(s: &Vec<u32>) -> (r: Vec<u32>)
    ensures
        r@ == s@,
{
    let mut r: Vec<u32> = Vec::with_capacity(s.len());
    let mut i: usize = 0;
    while i < s.len()
        invariant
            i <= s@.len(),
            r@ == s@.take(i as int),
        decreases s@.len() - i,
    {
        r.push(s[i]);
        i += 1;
        assert(r@ =~= s@.take(i as int));
    }
    assert(r@ =~= s@);
    r
}

/// Score, fields and (for a phrase query) positions of a candidate that
/// every required term holds.
fn candidate_info(b: &Block, required: &Vec<Vec<u16>>, l: u16, phrase: bool) -> (r: (
    u64,
    Vec<u16>,
    Vec<Vec<u32>>,
))
    requires
        decodes_to(b.terms@, required@),
        forall|t: int| 0 <= t < b.terms@.len() ==> term_shaped(#[trigger] b.terms@[t], phrase),
        id_matches(*b, l),
    ensures
        r.0 == score_of(*b, l),
        r.1@ == fields_at(*b, l),
        phrase ==> views(r.2@) == positions_at(*b, l),
{
    let mut score: u64 = 0;
    let mut fields: Vec<u16> = Vec::new();
    let mut positions: Vec<Vec<u32>> = Vec::new();
    let mut t: usize = 0;
    while t < b.terms.len()
        invariant
            t <= b.terms@.len(),
            decodes_to(b.terms@, required@),
            forall|u: int| 0 <= u < b.terms@.len() ==> term_shaped(#[trigger] b.terms@[u], phrase),
            id_matches(*b, l),
            score == score_upto(*b, l, t as int),
            fields@ == fields_at(*b, l).take(t as int),
            phrase ==> views(positions@) == positions_at(*b, l).take(t as int),
        decreases b.terms@.len() - t,
    {
        let term = &b.terms[t];
        assert(local_ids(b.terms@[t as int]).contains(l));
        assert(required@[t as int]@ == local_ids(b.terms@[t as int]));
        let j = position_of(&required[t], l);
        proof {
            assert(term_decodes(b.terms@[t as int]));
            lemma_index_in(b.terms@[t as int], l, j as int);
            assert(term_shaped(b.terms@[t as int], phrase));
        }
        let c = term.impacts[j] as u64;
        if c > u64::MAX - score {
            score = u64::MAX;
        } else {
            score = score + c;
        }
        fields.push(term.fields[j]);
        assert(fields@ =~= fields_at(*b, l).take(t + 1));
        if phrase {
            let p = copy_positions(&term.positions[j]);
            let ghost before = positions@;
            positions.push(p);
            assert(views(positions@) =~= positions_at(*b, l).take(t + 1)) by {
                assert(views(positions@) =~= views(before).push(p@));
            }
        }
        t += 1;
    }
    assert(fields@ =~= fields_at(*b, l));
    assert(phrase ==> views(positions@) =~= positions_at(*b, l));
    (score, fields, positions)
}

proof fn lemma_candidates(b: Block, d: DecodedBlock, x: u16)
    requires
        decodes_to(b.terms@, d.required@),
        decodes_to(b.excluded@, d.excluded@),
    ensures
        all_increasing(d.required@),
        all_increasing(d.excluded@),
        (in_all(d.required@, x) && !in_any(d.excluded@, x)) <==> id_matches(b, x),
{
    assert forall|t: int| 0 <= t < d.required@.len() implies strictly_increasing(
        #[trigger] d.required@[t]@,
    ) by {
        assert(term_decodes(b.terms@[t]));
    }
    assert forall|t: int| 0 <= t < d.excluded@.len() implies strictly_increasing(
        #[trigger] d.excluded@[t]@,
    ) by {
        assert(term_decodes(b.excluded@[t]));
    }
    assert(in_all(d.required@, x) <==> forall|t: int|
        0 <= t < b.terms@.len() ==> local_ids(#[trigger] b.terms@[t]).contains(x)) by {
        if in_all(d.required@, x) {
            assert forall|t: int| 0 <= t < b.terms@.len() implies local_ids(
                #[trigger] b.terms@[t],
            ).contains(x) by {
                assert(d.required@[t]@.contains(x));
            }
        }
        if forall|t: int| 0 <= t < b.terms@.len() ==> local_ids(#[trigger] b.terms@[t]).contains(x) {
            assert forall|t: int| 0 <= t < d.required@.len() implies (
            #[trigger] d.required@[t])@.contains(x) by {
                assert(local_ids(b.terms@[t]).contains(x));
            }
        }
    }
    assert(in_any(d.excluded@, x) <==> exists|e: int|
        0 <= e < b.excluded@.len() && local_ids(#[trigger] b.excluded@[e]).contains(x)) by {
        if in_any(d.excluded@, x) {
            let e = choose|e: int| 0 <= e < d.excluded@.len() && (#[trigger] d.excluded@[e])@.contains(x);
            assert(local_ids(b.excluded@[e]).contains(x));
        }
        if exists|e: int| 0 <= e < b.excluded@.len() && local_ids(#[trigger] b.excluded@[e]).contains(x) {
            let e = choose|e: int| 0 <= e < b.excluded@.len() && local_ids(#[trigger] b.excluded@[e]).contains(x);
            assert(d.excluded@[e]@.contains(x));
        }
    }
}

/// Runs one block: intersects its terms, filters and scores each candidate,
/// and hands the accepted ones to the collector in ascending id order.
fn collect_block(res: &mut SearchResult, b: &Block, d: &DecodedBlock, q: &QuerySpec)
    requires
        old(res).wf(),
        q.term_count >= 1,
        block_shaped(*b, *q),
        decodes_to(b.terms@, d.required@),
        decodes_to(b.excluded@, d.excluded@),
        old(res).next_doc <= b.block_id * 65536,
    ensures
        final(res).wf(),
        final(res).seen@ == old(res).seen@.union(block_hits(*b, *q)),
        final(res).next_doc <= (b.block_id + 1) * 65536,
        final(res).top_k == old(res).top_k,
        final(res).result_type == old(res).result_type,
        final(res).count_kind == old(res).count_kind,
{
    proof {
        lemma_candidates(*b, *d, 0);
    }
    let cands = intersect_query(&d.required, &d.excluded, q.strategy);
    let ghost seen0 = res.seen@;
    let ghost k0 = res.top_k;
    let ghost rt0 = res.result_type;
    let ghost ck0 = res.count_kind;
    let ghost base = b.block_id * 65536;
    proof {
        assert forall|x: u16| cands@.contains(x) <==> id_matches(*b, x) by {
            lemma_candidates(*b, *d, x);
        }
        assert(hits_among(*b, *q, cands@.take(0)) =~= Set::<ScoredDoc>::empty());
        assert(res.seen@ =~= seen0.union(hits_among(*b, *q, cands@.take(0))));
        assert forall|k: int| 0 <= k < cands@.len() implies res.next_doc <= base + cands@[k] by {}
    }
    let mut j: usize = 0;
    while j < cands.len()
        invariant
            j <= cands@.len(),
            res.wf(),
            res.top_k == k0,
            res.result_type == rt0,
            res.count_kind == ck0,
            q.term_count >= 1,
            block_shaped(*b, *q),
            decodes_to(b.terms@, d.required@),
            base == b.block_id * 65536,
            strictly_increasing(cands@),
            forall|x: u16| cands@.contains(x) <==> id_matches(*b, x),
            res.seen@ == seen0.union(hits_among(*b, *q, cands@.take(j as int))),
            forall|k: int| j <= k < cands@.len() ==> res.next_doc <= base + cands@[k],
            res.next_doc <= base + 65536,
        decreases cands@.len() - j,
    {
        let l = cands[j];
        assert(cands@.contains(l));
        let gid = global_doc_id(b.block_id, l);
        let mut take = false;
        let mut score: u64 = 0;
        if facet_filter_passes(&q.facet_filter, gid) {
            let (sc, fields, positions) = candidate_info(b, &d.required, l, q.phrase);
            if field_filter_passes(&q.field_filter, &fields) {
                if !q.phrase {
                    take = true;
                } else {
                    assert(views(positions@).len() == positions@.len());
                    if phrase_matches(&positions) {
                        take = true;
                    }
                }
            }
            score = sc;
        }
        assert(take == accepted(*b, *q, l));
        let ghost c0 = cands@.take(j as int);
        let ghost c1 = cands@.take(j + 1);
        proof {
            lemma_take_contains(cands@, j as int);
        }
        if take {
            res.add(gid, score);
            proof {
                assert(hit(*b, l) == ScoredDoc { doc_id: gid, score });
                assert(hits_among(*b, *q, c1) =~= hits_among(*b, *q, c0).insert(hit(*b, l))) by {
                    assert forall|s: ScoredDoc| hits_among(*b, *q, c1).contains(s) <==> (hits_among(
                        *b,
                        *q,
                        c0,
                    ).contains(s) || s == hit(*b, l)) by {
                        if hits_among(*b, *q, c1).contains(s) {
                            let y = choose|y: u16| c1.contains(y) && accepted(*b, *q, y) && s == hit(*b, y);
                            if y != l {
                                assert(c0.contains(y));
                            }
                        }
                        if hits_among(*b, *q, c0).contains(s) {
                            let y = choose|y: u16| c0.contains(y) && accepted(*b, *q, y) && s == hit(*b, y);
                            assert(c1.contains(y));
                        }
                        if s == hit(*b, l) {
                            assert(c1.contains(l));
                        }
                    }
                }
                assert(res.seen@ =~= seen0.union(hits_among(*b, *q, c1)));
                assert forall|k: int| j + 1 <= k < cands@.len() implies res.next_doc <= base + cands@[k] by {
                    assert(cands@[j as int] < cands@[k]);
                }
            }
        } else {
            proof {
                assert(hits_among(*b, *q, c1) =~= hits_among(*b, *q, c0)) by {
                    assert forall|s: ScoredDoc| hits_among(*b, *q, c1).contains(s) implies hits_among(
                        *b,
                        *q,
                        c0,
                    ).contains(s) by {
                        let y = choose|y: u16| c1.contains(y) && accepted(*b, *q, y) && s == hit(*b, y);
                        assert(y != l);
                        assert(c0.contains(y));
                    }
                    assert forall|s: ScoredDoc| hits_among(*b, *q, c0).contains(s) implies hits_among(
                        *b,
                        *q,
                        c1,
                    ).contains(s) by {
                        let y = choose|y: u16| c0.contains(y) && accepted(*b, *q, y) && s == hit(*b, y);
                        assert(c1.contains(y));
                    }
                }
                assert forall|k: int| j + 1 <= k < cands@.len() implies res.next_doc <= base + cands@[k] by {
                    assert(cands@[j as int] < cands@[k]);
                }
            }
        }
        j += 1;
    }
    proof {
        assert(cands@.take(cands@.len() as int) =~= cands@);
        assert(hits_among(*b, *q, cands@) =~= block_hits(*b, *q)) by {
            assert forall|s: ScoredDoc| block_hits(*b, *q).contains(s) implies hits_among(
                *b,
                *q,
                cands@,
            ).contains(s) by {
                let y = choose|y: u16| accepted(*b, *q, y) && s == hit(*b, y);
                assert(cands@.contains(y));
            }
        }
    }
}

/// Runs a query over a shard's blocks. The configuration is checked and
/// every posting buffer decoded before any block is run; then blocks are
/// walked in order. The collector keeps the best `offset + length`
/// documents; with `ResultType::Topk` the walk stops as soon as it is full,
/// and the total is then marked approximate.
pub fn execute(blocks: &Vec<Block>, q: &QuerySpec) -> (r: Result<SearchResult, QueryError>)
    ensures
        match r {
            Err(QueryError::Configuration) => !config_ok(blocks@, *q),
            Err(QueryError::Decode(_)) => config_ok(blocks@, *q) && !all_decode(blocks@),
            Ok(res) => {
                &&& config_ok(blocks@, *q)
                &&& all_decode(blocks@)
                &&& res.wf()
                &&& res.top_k == q.offset + q.length
                &&& res.result_type == q.result_type
                &&& res.count_kind == CountKind::Exact ==> res.seen@ == hits_upto(
                    blocks@,
                    *q,
                    blocks@.len() as int,
                )
                &&& res.count_kind == CountKind::Approximate ==> {
                    &&& q.result_type == ResultType::Topk
                    &&& res.results@.len() == q.offset + q.length
                    &&& exists|n: int| 0 < n < blocks@.len() && res.seen@ == hits_upto(blocks@, *q, n)
                }
            },
        },
{
    if !check_config(blocks, q) {
        return Err(QueryError::Configuration);
    }
    let ds = match decode_blocks(blocks) {
        Ok(ds) => ds,
        Err(e) => {
            return Err(QueryError::Decode(e));
        },
    };
    proof {
        assert forall|i: int| 0 <= i < blocks@.len() implies block_decodes(#[trigger] blocks@[i]) by {
            assert(decodes_to(blocks@[i].terms@, ds@[i].required@));
            assert(decodes_to(blocks@[i].excluded@, ds@[i].excluded@));
        }
    }
    let mut res = SearchResult::new(q.offset + q.length, q.result_type);
    let mut i: usize = 0;
    while i < blocks.len()
        invariant
            i <= blocks@.len(),
            config_ok(blocks@, *q),
            all_decode(blocks@),
            ds@.len() == blocks@.len(),
            forall|k: int|
                0 <= k < blocks@.len() ==> {
                    &&& decodes_to(blocks@[k].terms@, (#[trigger] ds@[k]).required@)
                    &&& decodes_to(blocks@[k].excluded@, ds@[k].excluded@)
                },
            res.wf(),
            res.top_k == q.offset + q.length,
            res.result_type == q.result_type,
            res.count_kind == CountKind::Exact,
            res.seen@ == hits_upto(blocks@, *q, i as int),
            i < blocks@.len() ==> res.next_doc <= blocks@[i as int].block_id * 65536,
        decreases blocks@.len() - i,
    {
        assert(block_shaped(blocks@[i as int], *q));
        assert(decodes_to(blocks@[i as int].terms@, ds@[i as int].required@));
        collect_block(&mut res, &blocks[i], &ds[i], q);
        i += 1;
        proof {
            if i < blocks@.len() {
                assert(blocks@[i - 1].block_id < blocks@[i as int].block_id);
            }
        }
        if i < blocks.len() && q.result_type == ResultType::Topk && res.results.len() == res.top_k {
            res.count_kind = CountKind::Approximate;
            assert(0 < i < blocks@.len() && res.seen@ == hits_upto(blocks@, *q, i as int));
            return Ok(res);
        }
    }
    Ok(res)
}

} // verus!
