//! Phrase verification: the query's terms must occur at consecutive
//! positions of a document, in query order.
use vstd::prelude::*;

verus! {

/// Position list `s` holds position `v`.
pub open spec fn has_pos(s: Seq<u32>, v: int) -> bool {
    exists|j: int| 0 <= j < s.len() && s[j] as int == v
}

/// Term `t` occurs at position `p + t`, for every term `t` of the query.
pub open spec fn run_at(positions: Seq<Seq<u32>>, p: int) -> bool {
    forall|t: int| 0 <= t < positions.len() ==> has_pos(#[trigger] positions[t], p + t)
}

/// Some position starts a run of the query's terms in order.
pub open spec fn is_phrase(positions: Seq<Seq<u32>>) -> bool {
    exists|p: int| run_at(positions, p)
}

/// The position lists held by a vector of them.
pub open spec fn views(positions: Seq<Vec<u32>>) -> Seq<Seq<u32>> {
    positions.map_values(|v: Vec<u32>| v@)
}

fn holds_position(s: &Vec<u32>, v: u64) -> (r: bool)
    ensures
        r == has_pos(s@, v as int),
{
    let mut j: usize = 0;
    while j < s.len()
        invariant
            j <= s@.len(),
            forall|k: int| 0 <= k < j ==> s@[k] as int != v as int,
        decreases s@.len() - j,
    {
        if s[j] as u64 == v {
            return true;
        }
        j += 1;
    }
    false
}

/// Whether the terms occur at `p`, `p + 1`, ... in query order.
pub fn run_starts_at(positions: &Vec<Vec<u32>>, p: u32) -> (r: bool)
    ensures
        r == run_at(views(positions@), p as int),
{
    let mut t: usize = 0;
    while t < positions.len()
        invariant
            t <= positions@.len(),
            forall|u: int| 0 <= u < t ==> has_pos(#[trigger] views(positions@)[u], p + u),
        decreases positions@.len() - t,
    {
        assert(views(positions@)[t as int] == positions@[t as int]@);
        if t as u64 > 0xFFFF_FFFFu64 {
            assert(!has_pos(positions@[t as int]@, p + t));
            return false;
        }
        let target = p as u64 + t as u64;
        if !holds_position(&positions[t], target) {
            return false;
        }
        t += 1;
    }
    true
}

/// Whether the positions of the query's terms in one document, listed in
/// query order, form a consecutive run.
pub fn phrase_matches(positions: &Vec<Vec<u32>>) -> (r: bool)
    requires
        positions@.len() >= 1,
    ensures
        r == is_phrase(views(positions@)),
{
    let first = &positions[0];
    let mut i: usize = 0;
    while i < first.len()
        invariant
            positions@.len() >= 1,
            *first == positions@[0],
            i <= first@.len(),
            forall|k: int| 0 <= k < i ==> !run_at(views(positions@), #[trigger] first@[k] as int),
        decreases first@.len() - i,
    {
        if run_starts_at(positions, first[i]) {
            return true;
        }
        i += 1;
    }
    assert(views(positions@)[0] == first@);
    assert forall|p: int| !run_at(views(positions@), p) by {
        if run_at(views(positions@), p) {
            assert(has_pos(views(positions@)[0], p + 0));
            let j = choose|j: int| 0 <= j < first@.len() && first@[j] as int == p + 0;
            assert(!run_at(views(positions@), first@[j] as int));
        }
    }
    false
}

} // verus!
