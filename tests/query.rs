use ahash::AHashSet;
use keyword_core::collector::{CountKind, ResultType, ScoredDoc, SearchResult};
use keyword_core::executor::{execute, Block, QueryError, QuerySpec, TermBlock};
use keyword_core::filter::{facet_filter_passes, field_filter_passes, FilterSparse};
use keyword_core::intersect::IntersectStrategy;
use keyword_core::phrase::{phrase_matches, run_starts_at};
use keyword_core::postings::DecodeError;

fn encode(ids: &[u16]) -> Vec<u8> {
    ids.iter().flat_map(|v| v.to_le_bytes()).collect()
}

fn term(ids: &[u16]) -> TermBlock {
    TermBlock {
        ids: encode(ids),
        doc_count: ids.len(),
        impacts: vec![1; ids.len()],
        fields: vec![0; ids.len()],
        positions: vec![Vec::new(); ids.len()],
    }
}

fn query(term_count: usize, length: usize, result_type: ResultType) -> QuerySpec {
    QuerySpec {
        term_count,
        phrase: false,
        offset: 0,
        length,
        result_type,
        strategy: IntersectStrategy::Vector,
        field_filter: AHashSet::new(),
        facet_filter: Vec::new(),
    }
}

fn ids_of(r: &SearchResult) -> Vec<u64> {
    let mut v: Vec<u64> = r.results.iter().map(|d| d.doc_id).collect();
    v.sort();
    v
}

fn scenario_block() -> Block {
    Block {
        block_id: 0,
        terms: vec![term(&[3, 5, 9, 20, 21, 22, 23, 24, 25, 26]), term(&[1, 5, 20, 22, 26, 30])],
        excluded: Vec::new(),
    }
}

#[test]
fn scenario_block_zero_global_ids() {
    let r = execute(&vec![scenario_block()], &query(2, 10, ResultType::TopkCount)).unwrap();
    assert_eq!(ids_of(&r), vec![5, 20, 22, 26]);
    assert_eq!(r.result_count(), 4);
    assert_eq!(r.result_count_total, 4);
    assert_eq!(r.count_kind, CountKind::Exact);
}

#[test]
fn scenario_empty_term_gives_nothing() {
    let block = Block {
        block_id: 0,
        terms: vec![term(&[3, 5, 9, 20, 21, 22, 23, 24, 25, 26]), term(&[])],
        excluded: Vec::new(),
    };
    let r = execute(&vec![block], &query(2, 10, ResultType::TopkCount)).unwrap();
    assert!(r.results.is_empty());
    assert_eq!(r.result_count_total, 0);
}

#[test]
fn scenario_facet_filter_excludes_twenty() {
    let mut q = query(2, 10, ResultType::TopkCount);
    q.facet_filter = vec![FilterSparse { doc_ids: vec![20], exclude: true }];
    let r = execute(&vec![scenario_block()], &q).unwrap();
    assert_eq!(ids_of(&r), vec![5, 22, 26]);
    assert_eq!(r.result_count_total, 3);
}

#[test]
fn facet_filters_allow_and_exclude() {
    let allow = FilterSparse { doc_ids: vec![1, 2], exclude: false };
    let exclude = FilterSparse { doc_ids: vec![2], exclude: true };
    assert!(facet_filter_passes(&vec![allow], 1));
    let allow = FilterSparse { doc_ids: vec![1, 2], exclude: false };
    assert!(!facet_filter_passes(&vec![allow], 3));
    let allow = FilterSparse { doc_ids: vec![1, 2], exclude: false };
    assert!(!facet_filter_passes(&vec![allow, exclude], 2));
    assert!(facet_filter_passes(&Vec::new(), 9));
}

#[test]
fn field_filter_restricts_fields() {
    let mut set: AHashSet<u16> = AHashSet::new();
    assert!(field_filter_passes(&set, &vec![4, 5]));
    set.insert(4);
    assert!(field_filter_passes(&set, &vec![4, 4]));
    assert!(!field_filter_passes(&set, &vec![4, 5]));

    let mut block = scenario_block();
    block.terms[0].fields = vec![1, 1, 1, 2, 1, 1, 1, 1, 1, 1];
    let mut q = query(2, 10, ResultType::TopkCount);
    q.field_filter.insert(0);
    q.field_filter.insert(1);
    let r = execute(&vec![block], &q).unwrap();
    assert_eq!(ids_of(&r), vec![5, 22, 26]);
}

#[test]
fn excluded_terms_never_appear() {
    let mut block = scenario_block();
    block.excluded = vec![term(&[22, 40])];
    let r = execute(&vec![block], &query(2, 10, ResultType::TopkCount)).unwrap();
    assert_eq!(ids_of(&r), vec![5, 20, 26]);
}

#[test]
fn phrase_positions_must_be_consecutive() {
    assert!(phrase_matches(&vec![vec![4, 10], vec![11], vec![2, 12]]));
    assert!(!phrase_matches(&vec![vec![4, 10], vec![11], vec![13]]));
    assert!(!phrase_matches(&vec![vec![5], vec![4]]));
    assert!(phrase_matches(&vec![vec![7]]));
    assert!(!phrase_matches(&vec![vec![], vec![1]]));
    assert!(run_starts_at(&vec![vec![u32::MAX - 1], vec![u32::MAX]], u32::MAX - 1));
    assert!(!run_starts_at(&vec![vec![u32::MAX], vec![0]], u32::MAX));
}

#[test]
fn phrase_query_keeps_only_consecutive_runs() {
    let mut block = scenario_block();
    block.terms[0].positions = vec![vec![0]; 10];
    block.terms[1].positions = vec![vec![5]; 6];
    // id 5 is index 1 in the first term and index 1 in the second
    block.terms[0].positions[1] = vec![3, 8];
    block.terms[1].positions[1] = vec![9];
    // id 26 is index 9 and index 4
    block.terms[0].positions[9] = vec![4];
    block.terms[1].positions[4] = vec![5];
    let mut q = query(2, 10, ResultType::TopkCount);
    q.phrase = true;
    let r = execute(&vec![block], &q).unwrap();
    assert_eq!(ids_of(&r), vec![5, 26]);
}

#[test]
fn scores_sum_term_impacts_and_rank() {
    let mut block = scenario_block();
    block.terms[0].impacts = vec![1, 10, 1, 3, 1, 7, 1, 1, 1, 2];
    block.terms[1].impacts = vec![1, 1, 3, 1, 9, 1];
    let r = execute(&vec![block], &query(2, 2, ResultType::TopkCount)).unwrap();
    assert_eq!(
        r.results,
        vec![ScoredDoc { doc_id: 5, score: 11 }, ScoredDoc { doc_id: 26, score: 11 }]
    );
    assert_eq!(r.result_count_total, 4);
}

#[test]
fn scores_saturate() {
    let mut block = scenario_block();
    block.terms[0].impacts = vec![u32::MAX; 10];
    block.terms[1].impacts = vec![u32::MAX; 6];
    let r = execute(&vec![block], &query(2, 1, ResultType::TopkCount)).unwrap();
    assert_eq!(r.results, vec![ScoredDoc { doc_id: 5, score: 2 * u32::MAX as u64 }]);
}

#[test]
fn count_only_keeps_no_documents() {
    let r = execute(&vec![scenario_block()], &query(2, 10, ResultType::Count)).unwrap();
    assert!(r.results.is_empty());
    assert_eq!(r.result_count(), 0);
    assert_eq!(r.result_count_total, 4);
    assert_eq!(r.count_kind, CountKind::Exact);
    let mut c = SearchResult::new(5, ResultType::Count);
    c.add(1, 10);
    c.add(2, 20);
    assert!(c.results.is_empty());
    assert_eq!(c.result_count_total, 2);
}

#[test]
fn top_k_independent_of_arrival_order() {
    let items = [(1u64, 5u64), (2, 9), (3, 9), (4, 1), (5, 7), (6, 9), (7, 0)];
    let want = vec![
        ScoredDoc { doc_id: 2, score: 9 },
        ScoredDoc { doc_id: 3, score: 9 },
        ScoredDoc { doc_id: 6, score: 9 },
        ScoredDoc { doc_id: 5, score: 7 },
    ];
    let orders: [[usize; 7]; 4] = [
        [0, 1, 2, 3, 4, 5, 6],
        [6, 5, 4, 3, 2, 1, 0],
        [3, 5, 0, 6, 2, 4, 1],
        [4, 2, 6, 1, 0, 3, 5],
    ];
    for order in orders.iter() {
        for result_type in [ResultType::Topk, ResultType::TopkCount] {
            let mut c = SearchResult::new(4, result_type);
            for &k in order.iter() {
                c.add(items[k].0, items[k].1);
            }
            assert_eq!(c.results, want);
            assert_eq!(c.result_count(), 4);
            assert_eq!(c.result_count_total, 7);
            assert_eq!(c.next_doc, 8);
        }
    }
    let mut small = SearchResult::new(10, ResultType::TopkCount);
    small.add(9, 1);
    small.add(4, 1);
    assert_eq!(
        small.results,
        vec![ScoredDoc { doc_id: 4, score: 1 }, ScoredDoc { doc_id: 9, score: 1 }]
    );
    let mut z = SearchResult::new(0, ResultType::TopkCount);
    z.add(3, 3);
    assert!(z.results.is_empty());
    assert_eq!(z.result_count_total, 1);
}

#[test]
fn topk_stops_early_with_approximate_total() {
    let b0 = scenario_block();
    let mut b1 = scenario_block();
    b1.block_id = 2;
    let r = execute(&vec![b0, b1], &query(2, 3, ResultType::Topk)).unwrap();
    assert_eq!(r.count_kind, CountKind::Approximate);
    assert_eq!(r.result_count_total, 4);
    assert_eq!(r.result_count(), 3);

    let b0 = scenario_block();
    let mut b1 = scenario_block();
    b1.block_id = 2;
    let r = execute(&vec![b0, b1], &query(2, 3, ResultType::TopkCount)).unwrap();
    assert_eq!(r.count_kind, CountKind::Exact);
    assert_eq!(r.result_count_total, 8);
    assert_eq!(ids_of(&r), vec![5, 20, 22]);
}

#[test]
fn second_block_ids_are_offset() {
    let mut b = scenario_block();
    b.block_id = 1;
    let r = execute(&vec![b], &query(2, 10, ResultType::TopkCount)).unwrap();
    assert_eq!(ids_of(&r), vec![65541, 65556, 65558, 65562]);
}

#[test]
fn configuration_errors() {
    assert_eq!(
        execute(&vec![scenario_block()], &query(3, 10, ResultType::TopkCount)).err(),
        Some(QueryError::Configuration)
    );
    assert_eq!(
        execute(&vec![scenario_block(), scenario_block()], &query(2, 10, ResultType::TopkCount)).err(),
        Some(QueryError::Configuration)
    );
    let mut b = scenario_block();
    b.terms[1].impacts.pop();
    assert_eq!(
        execute(&vec![b], &query(2, 10, ResultType::TopkCount)).err(),
        Some(QueryError::Configuration)
    );
    assert_eq!(
        execute(&vec![scenario_block()], &query(0, 10, ResultType::TopkCount)).err(),
        Some(QueryError::Configuration)
    );
}

#[test]
fn decode_errors_fail_the_query() {
    let mut b = scenario_block();
    b.terms[1].ids = encode(&[1, 5, 5, 22, 26, 30]);
    assert_eq!(
        execute(&vec![b], &query(2, 10, ResultType::TopkCount)).err(),
        Some(QueryError::Decode(DecodeError::NotIncreasing))
    );
    let mut b = scenario_block();
    b.terms[0].ids.pop();
    assert_eq!(
        execute(&vec![b], &query(2, 10, ResultType::TopkCount)).err(),
        Some(QueryError::Decode(DecodeError::Truncated))
    );
}

#[test]
fn offset_skips_best_results() {
    let mut block = scenario_block();
    block.terms[0].impacts = vec![1, 10, 1, 3, 1, 7, 1, 1, 1, 2];
    block.terms[1].impacts = vec![1, 1, 3, 1, 9, 1];
    let mut q = query(2, 2, ResultType::TopkCount);
    q.offset = 1;
    let r = execute(&vec![block], &q).unwrap();
    assert_eq!(r.top_k, 3);
    assert_eq!(
        r.result_page(1),
        vec![ScoredDoc { doc_id: 26, score: 11 }, ScoredDoc { doc_id: 22, score: 8 }]
    );
    assert_eq!(r.result_page(3), Vec::new());
    assert_eq!(r.result_page(9), Vec::new());
    let mut q = query(2, 2, ResultType::TopkCount);
    q.offset = usize::MAX;
    assert_eq!(execute(&vec![scenario_block()], &q).err(), Some(QueryError::Configuration));
}
