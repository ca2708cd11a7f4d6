use keyword_core::intersect::{
    intersect_block, intersection_scalar16, intersection_vector16, IntersectStrategy, PairMatch,
};
use keyword_core::multi::{intersect_all, intersect_query, subtract_sorted};
use keyword_core::postings::{decode_ids, global_doc_id, read_u16, split_doc_id, DecodeError};

fn docs(m: &[PairMatch]) -> Vec<u16> {
    m.iter().map(|x| x.doc).collect()
}

fn both(a: &[u16], b: &[u16]) -> Vec<u16> {
    let v = intersection_vector16(a, b);
    let s = intersection_scalar16(a, b);
    assert_eq!(v, s);
    for m in &v {
        assert_eq!(a[m.pos_a], m.doc);
        assert_eq!(b[m.pos_b], m.doc);
    }
    docs(&v)
}

#[test]
fn scenario_two_terms_block_zero() {
    let a = [3u16, 5, 9, 20, 21, 22, 23, 24, 25, 26];
    let b = [1u16, 5, 20, 22, 26, 30];
    assert_eq!(both(&a, &b), vec![5, 20, 22, 26]);
    assert_eq!(both(&b, &a), vec![5, 20, 22, 26]);
    let ids: Vec<u64> = both(&a, &b).iter().map(|&l| global_doc_id(0, l)).collect();
    assert_eq!(ids, vec![5, 20, 22, 26]);
}

#[test]
fn scenario_empty_second_list() {
    let a = [3u16, 5, 9, 20, 21, 22, 23, 24, 25, 26];
    assert_eq!(both(&a, &[]), Vec::<u16>::new());
    assert_eq!(both(&[], &a), Vec::<u16>::new());
    assert_eq!(both(&[], &[]), Vec::<u16>::new());
}

#[test]
fn singleton_disjoint_identical() {
    assert_eq!(both(&[7], &[7]), vec![7]);
    assert_eq!(both(&[7], &[8]), Vec::<u16>::new());
    assert_eq!(both(&[1, 3, 5, 7], &[0, 2, 4, 6, 8, 10, 12, 14, 16]), Vec::<u16>::new());
    let same: Vec<u16> = (0..40).map(|x| x * 3).collect();
    assert_eq!(both(&same, &same), same);
}

#[test]
fn vector_width_boundaries() {
    for n in [7usize, 8, 9, 15, 16, 17, 24] {
        let b: Vec<u16> = (0..n as u16).map(|x| x * 2).collect();
        let a: Vec<u16> = (0..(2 * n as u16 + 3)).collect();
        let want: Vec<u16> = b.clone();
        assert_eq!(both(&a, &b), want);
        let last = [b[n - 1]];
        assert_eq!(both(&last, &b), vec![b[n - 1]]);
        let first = [b[0]];
        assert_eq!(both(&first, &b), vec![0]);
    }
    let b: Vec<u16> = (100..116).collect();
    assert_eq!(both(&[1, 2, 115, 200], &b), vec![115]);
    assert_eq!(both(&[65535], &[0, 1, 2, 3, 4, 5, 6, 65535]), vec![65535]);
}

#[test]
fn strategies_agree_on_many_inputs() {
    let mut seed: u32 = 12345;
    for round in 0..200 {
        let mut a = Vec::new();
        let mut b = Vec::new();
        let mut x: u16 = 0;
        let mut y: u16 = 0;
        for _ in 0..(round % 50) {
            seed = seed.wrapping_mul(1103515245).wrapping_add(12345);
            x += 1 + (seed >> 16) as u16 % 4;
            a.push(x);
            seed = seed.wrapping_mul(1103515245).wrapping_add(12345);
            y += 1 + (seed >> 16) as u16 % 3;
            b.push(y);
        }
        let want: Vec<u16> = a.iter().copied().filter(|v| b.contains(v)).collect();
        assert_eq!(both(&a, &b), want);
        assert_eq!(
            intersect_block(IntersectStrategy::Vector, &a, &b),
            intersect_block(IntersectStrategy::Scalar, &a, &b)
        );
    }
}

#[test]
fn and_is_order_invariant() {
    let a = vec![1u16, 2, 3, 5, 8, 13, 21, 34];
    let b = vec![2u16, 3, 5, 7, 11, 13, 17, 19, 21, 23];
    let c = vec![3u16, 13, 21, 40];
    let want = vec![3u16, 13, 21];
    for strategy in [IntersectStrategy::Vector, IntersectStrategy::Scalar] {
        let orders = [
            vec![a.clone(), b.clone(), c.clone()],
            vec![b.clone(), a.clone(), c.clone()],
            vec![c.clone(), b.clone(), a.clone()],
            vec![b.clone(), c.clone(), a.clone()],
        ];
        for lists in orders.iter() {
            assert_eq!(intersect_all(lists, strategy), want);
        }
    }
    assert_eq!(intersect_all(&vec![a.clone()], IntersectStrategy::Scalar), a);
}

#[test]
fn not_exclusion_drops_excluded_ids() {
    let required = vec![vec![1u16, 2, 3, 4, 5, 6], vec![2u16, 3, 4, 5, 6, 7]];
    let excluded = vec![vec![3u16, 100], vec![0u16, 6]];
    let r = intersect_query(&required, &excluded, IntersectStrategy::Vector);
    assert_eq!(r, vec![2, 4, 5]);
    for e in &excluded {
        for x in e {
            assert!(!r.contains(x));
        }
    }
    assert_eq!(subtract_sorted(&[1, 2, 3], &[]), vec![1, 2, 3]);
    assert_eq!(subtract_sorted(&[1, 2, 3], &[1, 2, 3]), Vec::<u16>::new());
    assert_eq!(subtract_sorted(&[], &[1]), Vec::<u16>::new());
}

#[test]
fn decode_reads_little_endian() {
    let bytes = [0x34u8, 0x12, 0xff, 0xff];
    assert_eq!(read_u16(&bytes, 0), 0x1234);
    assert_eq!(read_u16(&bytes, 1), 65535);
    assert_eq!(decode_ids(&[5, 0, 20, 0, 1, 1], 3), Ok(vec![5, 20, 257]));
    assert_eq!(decode_ids(&[5, 0, 20, 0, 1, 1, 9], 3), Ok(vec![5, 20, 257]));
    assert_eq!(decode_ids(&[], 0), Ok(vec![]));
}

#[test]
fn decode_rejects_malformed_buffers() {
    assert_eq!(decode_ids(&[5, 0, 20], 2), Err(DecodeError::Truncated));
    assert_eq!(decode_ids(&[5, 0, 5, 0], 2), Err(DecodeError::NotIncreasing));
    assert_eq!(decode_ids(&[9, 0, 5, 0], 2), Err(DecodeError::NotIncreasing));
}

#[test]
fn global_ids_pack_block_and_local() {
    assert_eq!(global_doc_id(0, 5), 5);
    assert_eq!(global_doc_id(1, 0), 65536);
    assert_eq!(global_doc_id(3, 7), 3 * 65536 + 7);
    assert_eq!(split_doc_id(3 * 65536 + 7), (3, 7));
    assert_eq!(split_doc_id(65535), (0, 65535));
}
